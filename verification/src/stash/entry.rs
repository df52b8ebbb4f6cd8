//! The slot of a `Stash`: a live value, or a link of the free list.

use vstd::prelude::*;
use crate::index::Index;
use crate::scan::Slot;

verus! {

/// One slot of the backing array.
pub enum Entry<V> {
    /// A vacant slot, holding the offset of the next vacant slot (or the
    /// length of the backing array, where the free list ends).
    Empty(usize),
    /// An occupied slot.
    Full(V),
}

impl<V: Clone> Clone for Entry<V> {
    /// The same link, or a clone of the live value.
    fn clone(&self) -> (res: Self)
        ensures
            match *self {
                Entry::Empty(next) => res == Entry::<V>::Empty(next),
                Entry::Full(value) => res is Full && cloned(value, res->Full_0),
            },
    {
        match self {
            Entry::Empty(next) => Entry::Empty(*next),
            Entry::Full(value) => Entry::Full(value.clone()),
        }
    }
}

impl<V> Slot<V> for Entry<V> {
    open spec fn live(&self) -> Option<V> {
        match self {
            Entry::Full(value) => Some(*value),
            Entry::Empty(_) => None,
        }
    }

    open spec fn stamp(&self) -> u64 {
        0
    }

    open spec fn refilled(&self, value: V) -> Self {
        match self {
            Entry::Full(_) => Entry::Full(value),
            Entry::Empty(next) => Entry::Empty(*next),
        }
    }

    fn version(&self) -> (version: u64) {
        0
    }

    fn live_ref(&self) -> (res: Option<&V>) {
        value_ref(self)
    }

    fn live_mut(&mut self) -> (res: Option<&mut V>) {
        value_mut(self)
    }

    fn take_live(&mut self) -> (res: Option<V>) {
        let mut slot = Entry::Empty(0);
        if let Entry::Full(_) = self {
            core::mem::swap(self, &mut slot);
        }
        value(slot)
    }
}

/// Take the value if it exists.
pub fn value<V>(entry: Entry<V>) -> (res: Option<V>)
    ensures
        res == entry.live(),
{
    match entry {
        Entry::Full(value) => Some(value),
        Entry::Empty(_) => None,
    }
}

/// Get an optional reference to the value.
pub fn value_ref<V>(entry: &Entry<V>) -> (res: Option<&V>)
    ensures
        res == match entry.live() {
            Some(value) => Some(&value),
            None => None,
        },
{
    match entry {
        Entry::Full(value) => Some(value),
        Entry::Empty(_) => None,
    }
}

/// Get an optional mutable reference to the value.
pub fn value_mut<V>(entry: &mut Entry<V>) -> (res: Option<&mut V>)
    ensures
        match res {
            Some(value) => *old(entry) == Entry::Full(*value) && *final(entry) == Entry::Full(
                *final(value),
            ),
            None => *old(entry) is Empty && *final(entry) == *old(entry),
        },
{
    match entry {
        Entry::Full(value) => Some(value),
        Entry::Empty(_) => None,
    }
}

/// Pair the value of the slot at offset `pair.0`, if any, with its key.
pub fn value_index_ref<V, Ix: Index>(pair: (usize, &Entry<V>)) -> (res: Option<(Ix, &V)>)
    requires
        pair.1 is Full ==> Ix::representable(pair.0),
    ensures
        match res {
            Some((key, value)) => key.offset() == pair.0 && *pair.1 == Entry::Full(*value),
            None => pair.1 is Empty,
        },
{
    match pair.1 {
        Entry::Full(value) => Some((Ix::from_usize(pair.0), value)),
        Entry::Empty(_) => None,
    }
}

/// Pair the value of the slot at offset `pair.0`, if any, with its key.
pub fn value_index<V, Ix: Index>(pair: (usize, Entry<V>)) -> (res: Option<(Ix, V)>)
    requires
        pair.1 is Full ==> Ix::representable(pair.0),
    ensures
        match res {
            Some((key, value)) => key.offset() == pair.0 && pair.1 == Entry::Full(value),
            None => pair.1 is Empty,
        },
{
    match pair.1 {
        Entry::Full(value) => Some((Ix::from_usize(pair.0), value)),
        Entry::Empty(_) => None,
    }
}

/// Pair a mutable borrow of the value of the slot at offset `pair.0`, if
/// any, with its key.
pub fn value_index_mut<V, Ix: Index>(pair: (usize, &mut Entry<V>)) -> (res: Option<(Ix, &mut V)>)
    requires
        *pair.1 is Full ==> Ix::representable(pair.0),
    ensures
        match res {
            Some((key, value)) => key.offset() == pair.0 && *old(pair.1) == Entry::Full(*value)
                && *final(pair.1) == Entry::Full(*final(value)),
            None => *old(pair.1) is Empty && *final(pair.1) == *old(pair.1),
        },
{
    match pair.1 {
        Entry::Full(value) => Some((Ix::from_usize(pair.0), value)),
        Entry::Empty(_) => None,
    }
}

} // verus!
