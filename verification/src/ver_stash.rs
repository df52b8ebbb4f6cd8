//! The version-guarded table, with the slot functions named after entries.
//!
//! A `VerStash` is a `UniqueStash`: the same slots, the same keys, the same
//! model.

use vstd::prelude::*;
use crate::unique_stash::entry as base;
use crate::unique_stash::model::VerTable;
use crate::unique_stash::UniqueStash;

pub use crate::unique_stash::entry::{Entry, VerEntry};
pub use crate::unique_stash::extend::Extend as ExtendIndices;
pub use crate::unique_stash::iter::{IntoIter, IntoValues, Iter, IterMut, Values, ValuesMut};
pub use crate::unique_stash::tag::Tag;

verus! {

/// A slot in its first version, holding `value`.
pub fn new<V>(value: V) -> (entry: VerEntry<V>)
    ensures
        entry == (VerEntry { version: 0, entry: Entry::Full(value) }),
{
    base::new(value)
}

/// Fills a vacant slot with `value`, and returns the offset of the next
/// vacant slot. The version stays.
pub fn fill<V>(entry: &mut VerEntry<V>, value: V) -> (next_free: usize)
    requires
        old(entry).entry is Empty,
    ensures
        old(entry).entry == Entry::<V>::Empty(next_free),
        *final(entry) == (VerEntry { version: old(entry).version, entry: Entry::Full(value) }),
{
    base::fill(entry, value)
}

/// Pair the value of the slot at offset `pair.0`, if any, with its key.
pub fn entry_index_ref<V>(pair: (usize, &VerEntry<V>)) -> (res: Option<(Tag, &V)>)
    ensures
        res == match pair.1.entry {
            Entry::Full(value) => Some((Tag { idx: pair.0, ver: pair.1.version }, &value)),
            Entry::Empty(_) => None,
        },
{
    base::value_index_ref(pair)
}

/// Pair a mutable borrow of the value of the slot at offset `pair.0`, if
/// any, with its key.
pub fn entry_index_mut<V>(pair: (usize, &mut VerEntry<V>)) -> (res: Option<(Tag, &mut V)>)
    ensures
        match res {
            Some((tag, value)) => {
                &&& tag == (Tag { idx: pair.0, ver: old(pair.1).version })
                &&& old(pair.1).entry == Entry::Full(*value)
                &&& *final(pair.1) == (VerEntry {
                    version: old(pair.1).version,
                    entry: Entry::Full(*final(value)),
                })
            },
            None => old(pair.1).entry is Empty && *final(pair.1) == *old(pair.1),
        },
{
    base::value_index_mut(pair)
}

/// Pair the value of the slot at offset `pair.0`, if any, with its key.
pub fn entry_index<V>(pair: (usize, VerEntry<V>)) -> (res: Option<(Tag, V)>)
    ensures
        res == match pair.1.entry {
            Entry::Full(value) => Some((Tag { idx: pair.0, ver: pair.1.version }, value)),
            Entry::Empty(_) => None,
        },
{
    base::value_index(pair)
}

/// Get an optional reference to the value.
pub fn entry_ref<V>(entry: &VerEntry<V>) -> (res: Option<&V>)
    ensures
        res == match entry.entry {
            Entry::Full(value) => Some(&value),
            Entry::Empty(_) => None,
        },
{
    base::value_ref(entry)
}

/// Get an optional mutable reference to the value.
pub fn entry_mut<V>(entry: &mut VerEntry<V>) -> (res: Option<&mut V>)
    ensures
        match res {
            Some(value) => {
                &&& old(entry).entry == Entry::Full(*value)
                &&& *final(entry) == (VerEntry {
                    version: old(entry).version,
                    entry: Entry::Full(*final(value)),
                })
            },
            None => old(entry).entry is Empty && *final(entry) == *old(entry),
        },
{
    base::value_mut(entry)
}

/// Take the value if it exists.
pub fn entry<V>(slot: VerEntry<V>) -> (res: Option<V>)
    ensures
        res == match slot.entry {
            Entry::Full(value) => Some(value),
            Entry::Empty(_) => None,
        },
{
    base::value(slot)
}

/// A data structure storing values indexed by tickets.
pub struct VerStash<V> {
    table: UniqueStash<V>,
}

impl<V> View for VerStash<V> {
    type V = VerTable<V>;

    closed spec fn view(&self) -> VerTable<V> {
        self.table@
    }
}

impl<V> VerStash<V> {
    /// The invariant of the table.
    pub closed spec fn wf(&self) -> bool {
        self.table.wf()
    }

    /// A well-formed stash has a well-formed model.
    pub proof fn lemma_view_wf(&self)
        requires
            self.wf(),
        ensures
            self@.wf(),
    {
        self.table.lemma_view_wf();
    }

    /// Constructs a new, empty `VerStash<T>`.
    pub fn new() -> (stash: Self)
        ensures
            stash.wf(),
            stash@ == VerTable::<V>::fresh(),
    {
        VerStash::with_capacity(0)
    }

    /// Constructs a new, empty `VerStash<T>` with the specified capacity.
    pub fn with_capacity(capacity: usize) -> (stash: Self)
        ensures
            stash.wf(),
            stash@ == VerTable::<V>::fresh(),
    {
        VerStash { table: UniqueStash::with_capacity(capacity) }
    }

    /// Returns the number of elements the stash can hold without
    /// reallocating: at least the number of its slots.
    pub fn capacity(&self) -> (cap: usize)
        ensures
            self.wf() ==> cap >= self@.slots(),
    {
        self.table.capacity()
    }

    /// The number of items in the stash.
    pub fn len(&self) -> (n: usize)
        requires
            self.wf(),
        ensures
            n == self@.len(),
    {
        self.table.len()
    }

    /// Check if this `VerStash<V>` is empty.
    pub fn is_empty(&self) -> (res: bool)
        requires
            self.wf(),
        ensures
            res == (self@.len() == 0),
    {
        self.table.is_empty()
    }

    /// Reserves capacity for at least `additional` more elements to be put
    /// into the given `VerStash<T>`. The stash itself does not change.
    pub fn reserve(&mut self, additional: usize)
        requires
            old(self).wf(),
            old(self)@.len() + additional <= usize::MAX,
        ensures
            final(self).wf(),
            final(self)@ == old(self)@,
    {
        self.table.reserve(additional)
    }

    /// Reserves the minimum capacity for exactly `additional` more elements
    /// to be put into the given `VerStash<T>`. The stash itself does not
    /// change.
    pub fn reserve_exact(&mut self, additional: usize)
        requires
            old(self).wf(),
            old(self)@.len() + additional <= usize::MAX,
        ensures
            final(self).wf(),
            final(self)@ == old(self)@,
    {
        self.table.reserve_exact(additional)
    }

    /// Put a value into the stash.
    ///
    /// Returns the key of the value: the head of the free list in its
    /// present version, or, while no slot is vacant, a new slot in version 0.
    pub fn put(&mut self, value: V) -> (tag: Tag)
        requires
            old(self).wf(),
        ensures
            final(self).wf(),
            tag == old(self)@.next(),
            final(self)@ == old(self)@.put(value),
    {
        self.table.put(value)
    }

    /// Put all items of `items` into the stash, first to last.
    ///
    /// Returns a cursor over the keys under which the items are inserted.
    /// The items are actually inserted as the cursor is read; its `count`,
    /// `collect` and `finish` insert the rest all at once.
    pub fn extend(&mut self, items: Vec<V>) -> (cursor: ExtendIndices<'_, V>)
        requires
            old(self).wf(),
            old(self)@.slots() + items@.len() <= usize::MAX,
        ensures
            cursor.wf(),
            cursor.stash@ == old(self)@,
            cursor.source@ == items@,
            final(cursor.stash)@ == final(self)@,
            final(cursor.stash).wf() == final(self).wf(),
    {
        self.table.extend(items)
    }

    /// Iterate over the items in this `VerStash<V>`.
    ///
    /// Returns an iterator that yields `(tag, &value)` pairs, in ascending
    /// order of the offsets.
    pub fn iter(&self) -> (it: Iter<'_, V>)
        requires
            self.wf(),
        ensures
            it.wf(),
            it.remaining() == self@.items(),
    {
        self.table.iter()
    }

    /// Mutably iterate over the items in this `VerStash<V>`.
    ///
    /// Returns an iterator that yields `(tag, &mut value)` pairs, in
    /// ascending order of the offsets. What is written through a borrow is
    /// the value of its key afterwards, and nothing else changes.
    pub fn iter_mut(&mut self) -> (it: IterMut<'_, V>)
        requires
            old(self).wf(),
        ensures
            it.wf(),
            it.remaining().len() == old(self)@.items().len(),
            forall|j: int|
                0 <= j < it.remaining().len() ==> {
                    let item = old(self)@.items()[j];
                    &&& (#[trigger] it.remaining()[j]).tag() == item.tag()
                    &&& *it.remaining()[j].value == item.value
                    &&& final(self)@.values[item.offset] == *final(it.remaining()[j].value)
                },
            final(self).wf(),
            final(self)@.same_shape(old(self)@),
    {
        self.table.iter_mut()
    }

    /// Iterate over the values in this `VerStash<V>` by reference, in
    /// ascending order of the offsets.
    pub fn values(&self) -> (it: Values<'_, V>)
        requires
            self.wf(),
        ensures
            it.wf(),
            it.remaining() == self@.items(),
    {
        self.table.values()
    }

    /// Mutably iterate over the values in this `VerStash<V>` by reference,
    /// in ascending order of the offsets. What is written through a borrow
    /// is the value of its key afterwards, and nothing else changes.
    pub fn values_mut(&mut self) -> (it: ValuesMut<'_, V>)
        requires
            old(self).wf(),
        ensures
            it.wf(),
            it.remaining().len() == old(self)@.items().len(),
            forall|j: int|
                0 <= j < it.remaining().len() ==> {
                    let item = old(self)@.items()[j];
                    &&& (#[trigger] it.remaining()[j]).tag() == item.tag()
                    &&& *it.remaining()[j].value == item.value
                    &&& final(self)@.values[item.offset] == *final(it.remaining()[j].value)
                },
            final(self).wf(),
            final(self)@.same_shape(old(self)@),
    {
        self.table.values_mut()
    }

    /// Iterate over the values in this `VerStash<V>` by value, in ascending
    /// order of the offsets.
    pub fn into_values(self) -> (it: IntoValues<V>)
        requires
            self.wf(),
        ensures
            it.wf(),
            it.remaining() == self@.items(),
    {
        self.table.into_values()
    }

    /// Iterate over the `(tag, value)` pairs of this `VerStash<V>` by value,
    /// in ascending order of the offsets.
    pub fn into_iter(self) -> (it: IntoIter<V>)
        requires
            self.wf(),
        ensures
            it.wf(),
            it.remaining() == self@.items(),
    {
        self.table.into_iter()
    }

    /// Take an item from a slot (if non empty).
    ///
    /// Where `index` is the key of a live value, the slot goes on to its
    /// next version and becomes the head of the free list.
    pub fn take(&mut self, index: Tag) -> (res: Option<V>)
        requires
            old(self).wf(),
        ensures
            final(self).wf(),
            res == old(self)@.get(index),
            final(self)@ == old(self)@.take(index),
    {
        self.table.take(index)
    }

    /// Get a reference to the value at `index`.
    pub fn get(&self, index: Tag) -> (res: Option<&V>)
        requires
            self.wf(),
        ensures
            res == match self@.get(index) {
                Some(value) => Some(&value),
                None => None,
            },
    {
        self.table.get(index)
    }

    /// Get a mutable reference to the value at `index`.
    ///
    /// Nothing but that value can change through the reference.
    pub fn get_mut(&mut self, index: Tag) -> (res: Option<&mut V>)
        requires
            old(self).wf(),
        ensures
            final(self).wf(),
            match res {
                Some(value) => {
                    &&& Some(*value) == old(self)@.get(index)
                    &&& final(self)@ == old(self)@.set(index.idx, *final(value))
                },
                None => old(self)@.get(index) is None && final(self)@ == old(self)@,
            },
    {
        self.table.get_mut(index)
    }

    /// Clear the stash: every live slot is vacated, in ascending order of
    /// the offsets. This will not cause `Tag`s to be reused.
    pub fn clear(&mut self)
        requires
            old(self).wf(),
        ensures
            final(self).wf(),
            final(self)@ == old(self)@.clear(),
    {
        self.table.clear()
    }
}

impl<V: Clone> Clone for VerStash<V> {
    /// A stash of the same shape, holding clones of the values.
    fn clone(&self) -> (res: Self)
        ensures
            self.wf() ==> {
                &&& res.wf()
                &&& res@.same_shape(self@)
                &&& forall|k: usize| #[trigger]
                    self@.values.contains_key(k) ==> cloned(self@.values[k], res@.values[k])
            },
    {
        VerStash { table: self.table.clone() }
    }
}

impl<V> Default for VerStash<V> {
    fn default() -> (stash: Self)
        ensures
            stash.wf(),
            stash@ == VerTable::<V>::fresh(),
    {
        VerStash::new()
    }
}

} // verus!
