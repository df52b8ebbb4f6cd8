//! A table that does not reuse keys.

pub mod entry;
pub mod extend;
pub mod iter;
pub mod model;
pub mod tag;
pub mod text;

use vstd::prelude::*;
use vstd::pervasive::unreached;
use crate::backing;
use crate::stash::link;
use crate::scan::{lemma_live_complete, lemma_live_sound, live_items, Muts, Owned, Refs, Slot};
use crate::unique_stash::entry::{Entry, VerEntry};
use crate::unique_stash::extend::Extend;
use crate::unique_stash::iter::{IntoIter, IntoValues, Iter, IterMut, Values, ValuesMut};
use crate::unique_stash::model::{
    lemma_vacant_below, lemma_version_wraps, vacant_below, version_space, VerTable,
};

pub use crate::unique_stash::tag::{Tag, TagParseError};

verus! {

/// An `O(1)` amortized table that does not reuse keys.
///
/// Each slot has a version, which goes up by one, wrapping, whenever the
/// slot is vacated, and a key holds the version of its slot at the time of
/// the `put`. A key whose value was taken is therefore dead, also once the
/// slot holds another value.
pub struct UniqueStash<V> {
    /// The backing array.
    data: Vec<VerEntry<V>>,
    /// The number of live values.
    size: usize,
    /// The head of the free list: the offset that the next `put` fills.
    next_free: usize,
    /// The free list as a sequence, head first.
    free: Ghost<Seq<usize>>,
    /// For each slot, its version before it wrapped: the version it began
    /// with plus the number of times it was vacated.
    epochs: Ghost<Seq<nat>>,
}

impl<V> View for UniqueStash<V> {
    type V = VerTable<V>;

    closed spec fn view(&self) -> VerTable<V> {
        VerTable {
            values: Map::new(
                |i: usize| i < self.data@.len() && self.data@[i as int].entry is Full,
                |i: usize| self.data@[i as int].entry->Full_0,
            ),
            epochs: self.epochs@,
            free: self.free@,
        }
    }
}

impl<V> UniqueStash<V> {
    /// The invariant of the table: each slot has the version of the model,
    /// each vacant slot holds the offset of the next one of the free list,
    /// the last of them the length of the backing array, and `len` counts
    /// the live values.
    pub closed spec fn wf(&self) -> bool {
        &&& self.epochs@.len() == self.data@.len()
        &&& forall|i: int|
            0 <= i < self.data@.len() ==> (#[trigger] self.data@[i]).version == self.epochs@[i]
                % version_space()
        &&& self.next_free == link(self.free@, 0, self.data@.len())
        &&& forall|i: int|
            0 <= i < self.free@.len() ==> (#[trigger] self.free@[i]) < self.data@.len()
                && self.data@[self.free@[i] as int].entry == Entry::<V>::Empty(
                link(self.free@, i + 1, self.data@.len()) as usize,
            )
        &&& self.size == self@.values.len()
        &&& self@.wf()
    }

    /// A well-formed stash has a well-formed model.
    pub proof fn lemma_view_wf(&self)
        requires
            self.wf(),
        ensures
            self@.wf(),
    {
    }

    /// Constructs a new, empty `UniqueStash<T>`.
    ///
    /// The stash will not allocate until elements are put onto it.
    pub fn new() -> (stash: Self)
        ensures
            stash.wf(),
            stash@ == VerTable::<V>::fresh(),
    {
        UniqueStash::with_capacity(0)
    }

    /// Constructs a new, empty `UniqueStash<T>` with the specified capacity.
    pub fn with_capacity(capacity: usize) -> (stash: Self)
        ensures
            stash.wf(),
            stash@ == VerTable::<V>::fresh(),
    {
        let stash = UniqueStash {
            data: Vec::with_capacity(capacity),
            size: 0,
            next_free: 0,
            free: Ghost(Seq::empty()),
            epochs: Ghost(Seq::empty()),
        };
        proof {
            assert(stash@.values =~= Map::<usize, V>::empty());
        }
        stash
    }

    /// Returns the number of elements the stash can hold without
    /// reallocating: at least the number of its slots.
    pub fn capacity(&self) -> (cap: usize)
        ensures
            self.wf() ==> cap >= self@.slots(),
    {
        backing::capacity(&self.data)
    }

    /// The number of items in the stash.
    pub fn len(&self) -> (n: usize)
        requires
            self.wf(),
        ensures
            n == self@.len(),
    {
        self.size
    }

    /// Check if this `UniqueStash<V>` is empty.
    pub fn is_empty(&self) -> (res: bool)
        requires
            self.wf(),
        ensures
            res == (self@.len() == 0),
    {
        self.size == 0
    }

    /// Reserves capacity for at least `additional` more elements to be put
    /// into the given `UniqueStash<T>`. The stash itself does not change.
    pub fn reserve(&mut self, additional: usize)
        requires
            old(self).wf(),
            old(self)@.len() + additional <= usize::MAX,
        ensures
            final(self).wf(),
            final(self)@ == old(self)@,
    {
        let missing = self.shortfall(additional);
        if missing > 0 {
            self.data.reserve(missing);
        }
    }

    /// Reserves the minimum capacity for exactly `additional` more elements
    /// to be put into the given `UniqueStash<T>`. The stash itself does not
    /// change.
    pub fn reserve_exact(&mut self, additional: usize)
        requires
            old(self).wf(),
            old(self)@.len() + additional <= usize::MAX,
        ensures
            final(self).wf(),
            final(self)@ == old(self)@,
    {
        let missing = self.shortfall(additional);
        if missing > 0 {
            backing::reserve_exact(&mut self.data, missing);
        }
    }

    /// The number of slots that the backing array lacks to take
    /// `additional` more values: each vacant slot takes one of them. This
    /// is what `reserve` and `reserve_exact` ask of the backing array.
    fn shortfall(&self, additional: usize) -> (missing: usize)
        requires
            self.wf(),
        ensures
            missing == if self@.free.len() >= additional {
                0
            } else {
                additional - self@.free.len()
            },
            missing > 0 ==> self@.slots() + missing == self@.len() + additional,
    {
        let extra_space = self.data.len() - self.size;
        if extra_space < additional {
            additional - extra_space
        } else {
            0
        }
    }

    /// Put a value into the stash.
    ///
    /// Returns the key of the value: the head of the free list in its
    /// present version, or, while no slot is vacant, a new slot in version 0.
    pub fn put(&mut self, value: V) -> (tag: Tag)
        requires
            old(self).wf(),
        ensures
            final(self).wf(),
            tag == old(self)@.next(),
            final(self)@ == old(self)@.put(value),
    {
        let loc = self.next_free;
        let version;
        if loc == self.data.len() {
            self.data.push(entry::new(value));
            version = 0;
            self.next_free = self.data.len();
            proof {
                self.epochs = Ghost(self.epochs@.push(0));
            }
        } else {
            let slot = &mut self.data[loc];
            version = slot.version;
            self.next_free = entry::fill(slot, value);
            proof {
                self.free = Ghost(self.free@.drop_first());
            }
        }
        self.size += 1;
        proof {
            assert(self@.values =~= old(self)@.values.insert(loc, value));
            old(self)@.lemma_put(value);
        }
        Tag { idx: loc, ver: version }
    }

    /// Take an item from a slot (if non empty).
    ///
    /// Where `index` is the key of a live value, the slot goes on to its
    /// next version and becomes the head of the free list.
    pub fn take(&mut self, index: Tag) -> (res: Option<V>)
        requires
            old(self).wf(),
        ensures
            final(self).wf(),
            res == old(self)@.get(index),
            final(self)@ == old(self)@.take(index),
    {
        if !self.holds(index) {
            return None;
        }
        Some(self.vacate(index.idx))
    }

    /// Whether `index` is the key of a live value.
    fn holds(&self, index: Tag) -> (res: bool)
        requires
            self.wf(),
        ensures
            res == self@.contains(index),
    {
        if index.idx >= self.data.len() {
            return false;
        }
        let slot = &self.data[index.idx];
        match &slot.entry {
            Entry::Full(_) => slot.version == index.ver,
            Entry::Empty(_) => false,
        }
    }

    /// Moves the value out of the live slot at `offset`, takes the slot to
    /// its next version and pushes it on the free list.
    fn vacate(&mut self, offset: usize) -> (value: V)
        requires
            old(self).wf(),
            old(self)@.values.contains_key(offset),
        ensures
            final(self).wf(),
            value == old(self)@.values[offset],
            final(self)@ == old(self)@.vacate(offset),
    {
        let mut content = Entry::Empty(self.next_free);
        let slot = &mut self.data[offset];
        core::mem::swap(&mut slot.entry, &mut content);
        slot.version = slot.version.wrapping_add(1);
        proof {
            let free = seq![offset] + self.free@;
            assert forall|i: int| 0 <= i < free.len() implies (#[trigger] free[i])
                < self.data@.len() && self.data@[free[i] as int].entry == Entry::<V>::Empty(
                link(free, i + 1, self.data@.len()) as usize,
            ) by {
                if i > 0 {
                    assert(free[i] == self.free@[i - 1]);
                }
            }
            let epoch = self.epochs@[offset as int];
            lemma_version_wraps(epoch);
            self.free = Ghost(free);
            self.epochs = Ghost(self.epochs@.update(offset as int, epoch + 1));
        }
        self.next_free = offset;
        self.size -= 1;
        proof {
            assert(self@.values =~= old(self)@.values.remove(offset));
            old(self)@.lemma_vacate(offset);
        }
        match content {
            Entry::Full(value) => value,
            Entry::Empty(_) => unreached(),
        }
    }

    /// Get a reference to the value at `index`.
    pub fn get(&self, index: Tag) -> (res: Option<&V>)
        requires
            self.wf(),
        ensures
            res == match self@.get(index) {
                Some(value) => Some(&value),
                None => None,
            },
    {
        if self.holds(index) {
            entry::value_ref(&self.data[index.idx])
        } else {
            None
        }
    }

    /// Get a mutable reference to the value at `index`.
    ///
    /// Nothing but that value can change through the reference.
    pub fn get_mut(&mut self, index: Tag) -> (res: Option<&mut V>)
        requires
            old(self).wf(),
        ensures
            final(self).wf(),
            match res {
                Some(value) => {
                    &&& Some(*value) == old(self)@.get(index)
                    &&& final(self)@ == old(self)@.set(index.idx, *final(value))
                },
                None => old(self)@.get(index) is None && final(self)@ == old(self)@,
            },
    {
        if self.holds(index) {
            Some(self.slot_mut(index.idx))
        } else {
            None
        }
    }

    /// Borrows the value of the live slot at `offset`.
    fn slot_mut(&mut self, offset: usize) -> (value: &mut V)
        requires
            old(self).wf(),
            old(self)@.values.contains_key(offset),
        ensures
            final(self).wf(),
            *value == old(self)@.values[offset],
            final(self)@ == old(self)@.set(offset, *final(value)),
    {
        let value = match &mut self.data[offset].entry {
            Entry::Full(value) => value,
            Entry::Empty(_) => unreached(),
        };
        proof {
            assert(after_borrow(*self)@.values =~= old(self)@.values.insert(
                offset,
                *final(value),
            ));
            old(self)@.lemma_set(offset, *final(value));
        }
        value
    }

    /// The live slots of the backing array below `k` are the items of the
    /// model below `k`.
    proof fn lemma_live_items(&self, k: nat)
        requires
            self.wf(),
            k <= self.data@.len(),
        ensures
            live_items::<V, VerEntry<V>>(self.data@.subrange(0, k as int), 0)
                == self@.items_below(k),
        decreases k,
    {
        if k > 0 {
            self.lemma_live_items((k - 1) as nat);
            assert(self.data@.subrange(0, k as int).drop_last() =~= self.data@.subrange(
                0,
                k - 1,
            ));
            assert(self.data@.subrange(0, k as int).last() == self.data@[k - 1]);
            assert(self.data.len() == self.data@.len());
            let slot = self.data@[k - 1];
            assert(self@.values.contains_key((k - 1) as usize) == (slot.entry is Full));
            assert(slot.live() is Some == (slot.entry is Full));
            if slot.entry is Full {
                assert(self@.values[(k - 1) as usize] == slot.entry->Full_0);
                assert(slot.live() == Some(slot.entry->Full_0));
                assert(slot.stamp() == self@.version((k - 1) as usize));
            }
        }
    }

    /// The live slots of the backing array are the items of the model.
    proof fn lemma_items(&self)
        requires
            self.wf(),
        ensures
            live_items::<V, VerEntry<V>>(self.data@, 0) == self@.items(),
            self@.items().len() == self.size,
    {
        self.lemma_live_items(self.data@.len());
        assert(self.data@.subrange(0, self.data@.len() as int) =~= self.data@);
        self@.lemma_items();
    }

    /// A stash whose live values were overwritten stays well-formed and
    /// keeps its shape.
    proof fn lemma_rewritten(before: Self, after: Self)
        requires
            before.wf(),
            after.size == before.size,
            after.next_free == before.next_free,
            after.free@ == before.free@,
            after.epochs@ == before.epochs@,
            after.data@.len() == before.data@.len(),
            forall|i: int|
                0 <= i < before.data@.len() ==> (#[trigger] after.data@[i]) == before.data@[i] || (
                before.data@[i].entry is Full && after.data@[i].entry is Full
                    && after.data@[i].version == before.data@[i].version),
        ensures
            after.wf(),
            after@.same_shape(before@),
    {
        assert(after@.values.dom() =~= before@.values.dom()) by {
            assert forall|k: usize| after@.values.dom().contains(k) == before@.values.dom().contains(
                k,
            ) by {
                if k < before.data@.len() {
                    assert(after.data@[k as int] == before.data@[k as int] || (
                    before.data@[k as int].entry is Full && after.data@[k as int].entry is Full));
                }
            }
        }
        before@.lemma_same_shape(after@);
        assert forall|i: int| 0 <= i < after.free@.len() implies (#[trigger] after.free@[i])
            < after.data@.len() && after.data@[after.free@[i] as int].entry == Entry::<V>::Empty(
            link(after.free@, i + 1, after.data@.len()) as usize,
        ) by {
            let k = before.free@[i] as int;
            assert(after.data@[k] == before.data@[k] || (before.data@[k].entry is Full
                && after.data@[k].entry is Full));
        }
        assert forall|i: int| 0 <= i < after.data@.len() implies (#[trigger] after.data@[i]).version
            == after.epochs@[i] % version_space() by {
            assert(before.data@[i].version == before.epochs@[i] % version_space());
        }
    }

    /// Put all items of `items` into the stash, first to last.
    ///
    /// Returns a cursor over the keys under which the items are inserted.
    /// The items are actually inserted as the cursor is read; its `count`,
    /// `collect` and `finish` insert the rest all at once.
    pub fn extend(&mut self, items: Vec<V>) -> (cursor: Extend<'_, V>)
        requires
            old(self).wf(),
            old(self)@.slots() + items@.len() <= usize::MAX,
        ensures
            cursor.wf(),
            cursor.stash@ == old(self)@,
            cursor.source@ == items@,
            *final(cursor.stash) == *final(self),
    {
        proof {
            self.lemma_view_wf();
        }
        self.reserve(items.len());
        Extend { source: backing::deque_from_vec(items), stash: self }
    }

    /// Iterate over the items in this `UniqueStash<V>`.
    ///
    /// Returns an iterator that yields `(tag, &value)` pairs, in ascending
    /// order of the offsets.
    pub fn iter(&self) -> (it: Iter<'_, V>)
        requires
            self.wf(),
        ensures
            it.wf(),
            it.remaining() == self@.items(),
    {
        proof {
            self.lemma_items();
        }
        Iter::new(Refs::new(self.data.as_slice(), self.size))
    }

    /// Iterate over the values in this `UniqueStash<V>` by reference, in
    /// ascending order of the offsets.
    pub fn values(&self) -> (it: Values<'_, V>)
        requires
            self.wf(),
        ensures
            it.wf(),
            it.remaining() == self@.items(),
    {
        proof {
            self.lemma_items();
        }
        Values::new(Refs::new(self.data.as_slice(), self.size))
    }

    /// Iterate over the values in this `UniqueStash<V>` by value, in
    /// ascending order of the offsets.
    pub fn into_values(self) -> (it: IntoValues<V>)
        requires
            self.wf(),
        ensures
            it.wf(),
            it.remaining() == self@.items(),
    {
        proof {
            self.lemma_items();
        }
        IntoValues::new(Owned::new(self.data, self.size))
    }

    /// Iterate over the `(tag, value)` pairs of this `UniqueStash<V>` by
    /// value, in ascending order of the offsets.
    pub fn into_iter(self) -> (it: IntoIter<V>)
        requires
            self.wf(),
        ensures
            it.wf(),
            it.remaining() == self@.items(),
    {
        proof {
            self.lemma_items();
        }
        IntoIter::new(Owned::new(self.data, self.size))
    }

    /// Borrows every live value. What is written through a borrow is the
    /// value of its key afterwards, and nothing else changes.
    fn borrow_all(&mut self) -> (walk: Muts<'_, V>)
        requires
            old(self).wf(),
        ensures
            walk.wf(),
            walk.remaining().len() == old(self)@.items().len(),
            forall|j: int|
                0 <= j < walk.remaining().len() ==> {
                    let item = old(self)@.items()[j];
                    &&& (#[trigger] walk.remaining()[j]).tag() == item.tag()
                    &&& *walk.remaining()[j].value == item.value
                    &&& final(self)@.values[item.offset] == *final(walk.remaining()[j].value)
                },
            final(self).wf(),
            final(self)@.same_shape(old(self)@),
    {
        proof {
            self.lemma_items();
        }
        let inner = Muts::new(self.data.as_mut_slice());
        proof {
            let before = old(self).data@;
            let after = after_borrow(*self).data@;
            assert forall|i: int| 0 <= i < before.len() implies (#[trigger] after[i]) == before[i]
                || (before[i].entry is Full && after[i].entry is Full && after[i].version
                == before[i].version) by {
                if before[i].live() is Some {
                    lemma_live_complete::<V, VerEntry<V>>(before, 0, i);
                    let j = choose|j: int|
                        0 <= j < live_items::<V, VerEntry<V>>(before, 0).len() && (
                        #[trigger] live_items::<V, VerEntry<V>>(before, 0)[j]).offset == i as usize;
                    assert(inner.remaining()[j].offset == i);
                }
            }
            Self::lemma_rewritten(*old(self), after_borrow(*self));
            assert forall|j: int| 0 <= j < inner.remaining().len() implies after_borrow(
                *self,
            )@.values[old(self)@.items()[j].offset] == *final(
                (#[trigger] inner.remaining()[j]).value
            ) by {
                let offset = old(self)@.items()[j].offset;
                lemma_live_sound::<V, VerEntry<V>>(before, 0);
                assert(live_items::<V, VerEntry<V>>(before, 0)[j].offset == offset);
                assert(before[offset as int].live() is Some);
                assert(after[offset as int] == before[offset as int].refilled(
                    *final(inner.remaining()[j].value),
                ));
            }
        }
        inner
    }

    /// Mutably iterate over the items in this `UniqueStash<V>`.
    ///
    /// Returns an iterator that yields `(tag, &mut value)` pairs, in
    /// ascending order of the offsets. What is written through a borrow is
    /// the value of its key afterwards, and nothing else changes.
    pub fn iter_mut(&mut self) -> (it: IterMut<'_, V>)
        requires
            old(self).wf(),
        ensures
            it.wf(),
            it.remaining().len() == old(self)@.items().len(),
            forall|j: int|
                0 <= j < it.remaining().len() ==> {
                    let item = old(self)@.items()[j];
                    &&& (#[trigger] it.remaining()[j]).tag() == item.tag()
                    &&& *it.remaining()[j].value == item.value
                    &&& final(self)@.values[item.offset] == *final(it.remaining()[j].value)
                },
            final(self).wf(),
            final(self)@.same_shape(old(self)@),
    {
        proof {
            self.lemma_items();
        }
        IterMut::new(self.borrow_all())
    }

    /// Mutably iterate over the values in this `UniqueStash<V>` by
    /// reference, in ascending order of the offsets. What is written
    /// through a borrow is the value of its key afterwards, and nothing
    /// else changes.
    pub fn values_mut(&mut self) -> (it: ValuesMut<'_, V>)
        requires
            old(self).wf(),
        ensures
            it.wf(),
            it.remaining().len() == old(self)@.items().len(),
            forall|j: int|
                0 <= j < it.remaining().len() ==> {
                    let item = old(self)@.items()[j];
                    &&& (#[trigger] it.remaining()[j]).tag() == item.tag()
                    &&& *it.remaining()[j].value == item.value
                    &&& final(self)@.values[item.offset] == *final(it.remaining()[j].value)
                },
            final(self).wf(),
            final(self)@.same_shape(old(self)@),
    {
        ValuesMut::new(self.borrow_all())
    }

    /// The stored form of the stash: for each slot of the backing array, in
    /// order, its version and a borrow of its value, if it is live.
    pub fn to_slots(&self) -> (slots: Vec<(u64, Option<&V>)>)
        requires
            self.wf(),
        ensures
            slots@.len() == self@.slots(),
            forall|k: int|
                0 <= k < slots@.len() ==> (#[trigger] slots@[k]) == (
                    self@.stored()[k].0,
                    match self@.stored()[k].1 {
                        Some(value) => Some(&value),
                        None => None,
                    },
                ),
    {
        let mut slots: Vec<(u64, Option<&V>)> = Vec::with_capacity(self.data.len());
        let mut i: usize = 0;
        while i < self.data.len()
            invariant
                self.wf(),
                i <= self.data@.len(),
                slots@.len() == i,
                forall|k: int|
                    0 <= k < i ==> (#[trigger] slots@[k]) == (
                        self@.stored()[k].0,
                        match self@.stored()[k].1 {
                            Some(value) => Some(&value),
                            None => None,
                        },
                    ),
            decreases self.data@.len() - i,
        {
            let slot = &self.data[i];
            slots.push((slot.version, entry::value_ref(slot)));
            i += 1;
        }
        slots
    }

    /// The stash of a stored form: the values and versions as stored, and
    /// the vacant slots chained in the order in which they are stored, the
    /// first of them last on the free list and linked to the length.
    pub fn from_slots(slots: Vec<(u64, Option<V>)>) -> (stash: Self)
        ensures
            stash.wf(),
            stash@ == VerTable::restored(slots@),
    {
        let ghost stored = slots@;
        let total = slots.len();
        let mut source = backing::deque_from_vec(slots);
        let mut data: Vec<VerEntry<V>> = Vec::with_capacity(total);
        let mut next_free: usize = 0;
        let mut size: usize = 0;
        let mut first_free: Option<usize> = None;
        while source.len() > 0
            invariant
                total == stored.len(),
                data@.len() + source@.len() == stored.len(),
                source@ == stored.subrange(data@.len() as int, stored.len() as int),
                size + vacant_below(stored, data@.len()).len() == data@.len(),
                forall|k: int|
                    0 <= k < data@.len() ==> (#[trigger] data@[k]).version == stored[k].0
                        && data@[k].live() == stored[k].1,
                next_free == link(vacant_below(stored, data@.len()), 0, 0),
                forall|i: int|
                    0 <= i < vacant_below(stored, data@.len()).len() ==> data@[vacant_below(
                        stored,
                        data@.len(),
                    )[i] as int].entry == Entry::<V>::Empty(
                        link(vacant_below(stored, data@.len()), i + 1, 0) as usize,
                    ),
                first_free == if vacant_below(stored, data@.len()).len() > 0 {
                    Some(vacant_below(stored, data@.len()).last())
                } else {
                    None
                },
            decreases source@.len(),
        {
            let i = data.len();
            let ghost free = vacant_below(stored, i as nat);
            proof {
                lemma_vacant_below(stored, i as nat);
                lemma_vacant_below(stored, (i + 1) as nat);
            }
            match source.pop_front() {
                Some((version, Some(value))) => {
                    data.push(VerEntry { version, entry: Entry::Full(value) });
                    size += 1;
                    proof {
                        assert(vacant_below(stored, (i + 1) as nat) == free);
                    }
                },
                Some((version, None)) => {
                    if first_free.is_none() {
                        first_free = Some(i);
                    }
                    data.push(VerEntry { version, entry: Entry::Empty(next_free) });
                    next_free = i;
                    proof {
                        let grown = vacant_below(stored, (i + 1) as nat);
                        assert(grown == seq![i] + free);
                        assert forall|j: int| 0 <= j < grown.len() implies data@[grown[j] as int].entry
                            == Entry::<V>::Empty(link(grown, j + 1, 0) as usize) by {
                            if j > 0 {
                                assert(grown[j] == free[j - 1]);
                            }
                        }
                    }
                },
                None => {},
            }
            proof {
                assert(source@ =~= stored.subrange(data@.len() as int, stored.len() as int));
            }
        }
        let ghost free = vacant_below(stored, total as nat);
        proof {
            lemma_vacant_below(stored, total as nat);
        }
        match first_free {
            Some(last) => {
                data[last].entry = Entry::Empty(total);
            },
            None => {
                next_free = total;
            },
        }
        let stash = UniqueStash {
            data,
            size,
            next_free,
            free: Ghost(free),
            epochs: Ghost(Seq::new(stored.len(), |k: int| stored[k].0 as nat)),
        };
        proof {
            let table = VerTable::restored(stored);
            VerTable::lemma_restored(stored);
            assert(stash@.values =~= table.values);
            assert(stash@ == table);
            assert forall|i: int| 0 <= i < free.len() implies (#[trigger] free[i])
                < stash.data@.len() && stash.data@[free[i] as int].entry == Entry::<V>::Empty(
                link(free, i + 1, stash.data@.len()) as usize,
            ) by {
                if i + 1 < free.len() {
                    assert(free[i] > free[free.len() - 1]);
                }
            }
        }
        stash
    }

    /// Clear the UniqueStash: every live slot is vacated, in ascending
    /// order of the offsets.
    ///
    /// Note: This will not cause `Tag`s to be reused. The stash is
    /// well-formed between any two of the slots.
    pub fn clear(&mut self)
        requires
            old(self).wf(),
        ensures
            final(self).wf(),
            final(self)@ == old(self)@.clear(),
    {
        let mut i: usize = 0;
        while i < self.data.len()
            invariant
                self.wf(),
                i <= self@.slots(),
                self@.slots() == old(self)@.slots(),
                self@ == old(self)@.clear_below(i as nat),
            decreases self@.slots() - i,
        {
            let live = match &self.data[i].entry {
                Entry::Full(_) => true,
                Entry::Empty(_) => false,
            };
            if live {
                let _ = self.vacate(i);
            }
            i += 1;
        }
    }
}

impl<V: Clone> Clone for UniqueStash<V> {
    /// A stash of the same shape, holding clones of the values.
    fn clone(&self) -> (res: Self)
        ensures
            self.wf() ==> {
                &&& res.wf()
                &&& res@.same_shape(self@)
                &&& forall|k: usize| #[trigger]
                    self@.values.contains_key(k) ==> cloned(self@.values[k], res@.values[k])
            },
    {
        let mut data: Vec<VerEntry<V>> = Vec::with_capacity(self.data.len());
        let mut i: usize = 0;
        while i < self.data.len()
            invariant
                i <= self.data@.len(),
                data@.len() == i,
                forall|j: int|
                    0 <= j < i ==> (#[trigger] data@[j]).version == self.data@[j].version
                        && match self.data@[j].entry {
                        Entry::Empty(next) => data@[j].entry == Entry::<V>::Empty(next),
                        Entry::Full(value) => data@[j].entry is Full && cloned(
                            value,
                            data@[j].entry->Full_0,
                        ),
                    },
            decreases self.data@.len() - i,
        {
            data.push(self.data[i].clone());
            i += 1;
        }
        let res = UniqueStash {
            data,
            size: self.size,
            next_free: self.next_free,
            free: Ghost(self.free@),
            epochs: Ghost(self.epochs@),
        };
        proof {
            if self.wf() {
                assert forall|i: int| 0 <= i < self.data@.len() implies (#[trigger] res.data@[i])
                    == self.data@[i] || (self.data@[i].entry is Full && res.data@[i].entry is Full
                    && res.data@[i].version == self.data@[i].version) by {
                    assert(res.data@[i].version == self.data@[i].version);
                }
                Self::lemma_rewritten(*self, res);
            }
        }
        res
    }
}

impl<V> Default for UniqueStash<V> {
    fn default() -> (stash: Self)
        ensures
            stash.wf(),
            stash@ == VerTable::<V>::fresh(),
    {
        UniqueStash::new()
    }
}

} // verus!
