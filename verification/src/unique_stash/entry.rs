//! The slot of a `UniqueStash`: a version, and a live value or a link of the
//! free list.

use vstd::prelude::*;
use vstd::pervasive::unreached;
use crate::scan::Slot;
use crate::unique_stash::tag::Tag;

verus! {

/// What a slot holds.
pub enum Entry<V> {
    /// A live value.
    Full(V),
    /// Nothing but the offset of the next vacant slot (or the length of the
    /// backing array, where the free list ends).
    Empty(usize),
}

/// One slot of the backing array, with the version that guards its keys.
pub struct VerEntry<V> {
    /// The version: how often the slot has been vacated, wrapped.
    pub version: u64,
    /// What the slot holds.
    pub entry: Entry<V>,
}

impl<V: Clone> Clone for Entry<V> {
    /// The same link, or a clone of the live value.
    fn clone(&self) -> (res: Self)
        ensures
            match *self {
                Entry::Empty(next) => res == Entry::<V>::Empty(next),
                Entry::Full(value) => res is Full && cloned(value, res->Full_0),
            },
    {
        match self {
            Entry::Empty(next) => Entry::Empty(*next),
            Entry::Full(value) => Entry::Full(value.clone()),
        }
    }
}

impl<V: Clone> Clone for VerEntry<V> {
    /// The same version, and the same link or a clone of the live value.
    fn clone(&self) -> (res: Self)
        ensures
            res.version == self.version,
            match self.entry {
                Entry::Empty(next) => res.entry == Entry::<V>::Empty(next),
                Entry::Full(value) => res.entry is Full && cloned(value, res.entry->Full_0),
            },
    {
        VerEntry { version: self.version, entry: self.entry.clone() }
    }
}

impl<V> Slot<V> for VerEntry<V> {
    open spec fn live(&self) -> Option<V> {
        match self.entry {
            Entry::Full(value) => Some(value),
            Entry::Empty(_) => None,
        }
    }

    open spec fn stamp(&self) -> u64 {
        self.version
    }

    open spec fn refilled(&self, value: V) -> Self {
        match self.entry {
            Entry::Full(_) => VerEntry { version: self.version, entry: Entry::Full(value) },
            Entry::Empty(next) => VerEntry { version: self.version, entry: Entry::Empty(next) },
        }
    }

    fn version(&self) -> (version: u64) {
        self.version
    }

    fn live_ref(&self) -> (res: Option<&V>) {
        value_ref(self)
    }

    fn live_mut(&mut self) -> (res: Option<&mut V>) {
        value_mut(self)
    }

    fn take_live(&mut self) -> (res: Option<V>) {
        let mut content = Entry::Empty(0);
        if let Entry::Full(_) = &self.entry {
            core::mem::swap(&mut self.entry, &mut content);
        }
        match content {
            Entry::Full(value) => Some(value),
            Entry::Empty(_) => None,
        }
    }
}

/// A slot in its first version, holding `value`.
pub fn new<V>(value: V) -> (slot: VerEntry<V>)
    ensures
        slot == (VerEntry { version: 0, entry: Entry::Full(value) }),
{
    VerEntry { version: 0, entry: Entry::Full(value) }
}

/// Fills a vacant slot with `value`, and returns the offset of the next
/// vacant slot. The version stays.
pub fn fill<V>(entry: &mut VerEntry<V>, value: V) -> (next_free: usize)
    requires
        old(entry).entry is Empty,
    ensures
        old(entry).entry == Entry::<V>::Empty(next_free),
        *final(entry) == (VerEntry { version: old(entry).version, entry: Entry::Full(value) }),
{
    let mut slot = Entry::Full(value);
    core::mem::swap(&mut entry.entry, &mut slot);
    match slot {
        Entry::Empty(next_free) => next_free,
        Entry::Full(_) => unreached(),
    }
}

/// Pair the value of the slot at offset `pair.0`, if any, with its key.
pub fn value_index_ref<V>(pair: (usize, &VerEntry<V>)) -> (res: Option<(Tag, &V)>)
    ensures
        res == match pair.1.live() {
            Some(value) => Some((Tag { idx: pair.0, ver: pair.1.version }, &value)),
            None => None,
        },
{
    let version = pair.1.version;
    match &pair.1.entry {
        Entry::Full(value) => Some((Tag { idx: pair.0, ver: version }, value)),
        Entry::Empty(_) => None,
    }
}

/// Pair a mutable borrow of the value of the slot at offset `pair.0`, if
/// any, with its key.
pub fn value_index_mut<V>(pair: (usize, &mut VerEntry<V>)) -> (res: Option<(Tag, &mut V)>)
    ensures
        match res {
            Some((tag, value)) => {
                &&& tag == (Tag { idx: pair.0, ver: old(pair.1).version })
                &&& old(pair.1).live() == Some(*value)
                &&& *final(pair.1) == (VerEntry {
                    version: old(pair.1).version,
                    entry: Entry::Full(*final(value)),
                })
            },
            None => old(pair.1).live() is None && *final(pair.1) == *old(pair.1),
        },
{
    let version = pair.1.version;
    match &mut pair.1.entry {
        Entry::Full(value) => Some((Tag { idx: pair.0, ver: version }, value)),
        Entry::Empty(_) => None,
    }
}

/// Pair the value of the slot at offset `pair.0`, if any, with its key.
pub fn value_index<V>(pair: (usize, VerEntry<V>)) -> (res: Option<(Tag, V)>)
    ensures
        res == match pair.1.live() {
            Some(value) => Some((Tag { idx: pair.0, ver: pair.1.version }, value)),
            None => None,
        },
{
    let version = pair.1.version;
    match pair.1.entry {
        Entry::Full(value) => Some((Tag { idx: pair.0, ver: version }, value)),
        Entry::Empty(_) => None,
    }
}

/// Get an optional reference to the value.
pub fn value_ref<V>(entry: &VerEntry<V>) -> (res: Option<&V>)
    ensures
        res == match entry.live() {
            Some(value) => Some(&value),
            None => None,
        },
{
    match &entry.entry {
        Entry::Full(value) => Some(value),
        Entry::Empty(_) => None,
    }
}

/// Get an optional mutable reference to the value.
pub fn value_mut<V>(entry: &mut VerEntry<V>) -> (res: Option<&mut V>)
    ensures
        match res {
            Some(value) => {
                &&& old(entry).live() == Some(*value)
                &&& *final(entry) == (VerEntry {
                    version: old(entry).version,
                    entry: Entry::Full(*final(value)),
                })
            },
            None => old(entry).live() is None && *final(entry) == *old(entry),
        },
{
    match &mut entry.entry {
        Entry::Full(value) => Some(value),
        Entry::Empty(_) => None,
    }
}

/// Take the value if it exists.
pub fn value<V>(entry: VerEntry<V>) -> (res: Option<V>)
    ensures
        res == entry.live(),
{
    match entry.entry {
        Entry::Full(value) => Some(value),
        Entry::Empty(_) => None,
    }
}

} // verus!
