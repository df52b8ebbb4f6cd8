//! The mathematical model of a `Stash`, and the laws of its operations.

use vstd::prelude::*;
use crate::scan::Item;

verus! {

/// What a `Stash` is to its callers: the live values by the offset of their
/// slot, the vacant slots in the order of their reuse, and the number of
/// slots.
#[verifier::ext_equal]
pub struct Table<V> {
    /// The live values, by offset.
    pub values: Map<usize, V>,
    /// The vacant slots; `put` fills the first.
    pub free: Seq<usize>,
    /// The number of slots, vacant or not.
    pub slots: nat,
}

/// One call of a script of `put`s and `take`s.
pub enum Call<V> {
    /// `put` of a value.
    Put(V),
    /// `take` of the key with this offset.
    Take(usize),
}

impl<V> Table<V> {
    /// The table that `new` returns.
    pub open spec fn fresh() -> Self {
        Table { values: Map::empty(), free: Seq::empty(), slots: 0 }
    }

    /// Every slot is either live or on the free list, once.
    pub open spec fn wf(self) -> bool {
        &&& self.slots <= usize::MAX
        &&& self.values.dom().finite()
        &&& self.free.no_duplicates()
        &&& forall|k: usize| #[trigger] self.values.contains_key(k) ==> k < self.slots
        &&& forall|i: int|
            0 <= i < self.free.len() ==> (#[trigger] self.free[i]) < self.slots
                && !self.values.contains_key(self.free[i])
        &&& self.values.len() + self.free.len() == self.slots
    }

    /// The number of live values.
    pub open spec fn len(self) -> nat {
        self.values.len()
    }

    /// The offset of the slot that the next `put` fills: the head of the
    /// free list, or a new slot while none is vacant.
    pub open spec fn next(self) -> usize {
        if self.free.len() > 0 {
            self.free[0]
        } else {
            self.slots as usize
        }
    }

    /// Whether a `put` finds room: a vacant slot, or an offset for a new one.
    pub open spec fn has_room(self) -> bool {
        self.free.len() > 0 || self.slots < usize::MAX
    }

    /// The table after `put(value)`.
    pub open spec fn put(self, value: V) -> Self {
        if self.free.len() > 0 {
            Table {
                values: self.values.insert(self.next(), value),
                free: self.free.drop_first(),
                slots: self.slots,
            }
        } else {
            Table {
                values: self.values.insert(self.next(), value),
                free: self.free,
                slots: self.slots + 1,
            }
        }
    }

    /// What `get` and `take` return for the key with offset `k`.
    pub open spec fn get(self, k: usize) -> Option<V> {
        if self.values.contains_key(k) {
            Some(self.values[k])
        } else {
            None
        }
    }

    /// The table after `take` of the key with offset `k`: a live slot
    /// becomes the head of the free list, anything else changes nothing.
    pub open spec fn take(self, k: usize) -> Self {
        if self.values.contains_key(k) {
            Table { values: self.values.remove(k), free: seq![k] + self.free, slots: self.slots }
        } else {
            self
        }
    }

    /// The table after the live value at offset `k` was overwritten.
    pub open spec fn set(self, k: usize, value: V) -> Self {
        Table { values: self.values.insert(k, value), free: self.free, slots: self.slots }
    }

    /// The table after the values of `values` were put, first to last.
    pub open spec fn put_all(self, values: Seq<V>) -> Self
        decreases values.len(),
    {
        if values.len() == 0 {
            self
        } else {
            self.put(values[0]).put_all(values.drop_first())
        }
    }

    /// The offsets of the keys that `put` returns for the values of
    /// `values`, put first to last.
    pub open spec fn put_keys(self, values: Seq<V>) -> Seq<usize>
        decreases values.len(),
    {
        if values.len() == 0 {
            Seq::empty()
        } else {
            seq![self.next()] + self.put(values[0]).put_keys(values.drop_first())
        }
    }

    /// The table after one call.
    pub open spec fn step(self, call: Call<V>) -> Self {
        match call {
            Call::Put(value) => self.put(value),
            Call::Take(k) => self.take(k),
        }
    }

    /// The table after a script of calls.
    pub open spec fn replay(self, script: Seq<Call<V>>) -> Self
        decreases script.len(),
    {
        if script.len() == 0 {
            self
        } else {
            self.replay(script.drop_last()).step(script.last())
        }
    }

    /// The keys that the `put`s of a script return, in order.
    pub open spec fn keys(self, script: Seq<Call<V>>) -> Seq<usize>
        decreases script.len(),
    {
        if script.len() == 0 {
            Seq::empty()
        } else {
            let before = self.replay(script.drop_last());
            match script.last() {
                Call::Put(_) => self.keys(script.drop_last()).push(before.next()),
                Call::Take(_) => self.keys(script.drop_last()),
            }
        }
    }

    /// The live values at offsets below `n`, in ascending order of the
    /// offsets.
    pub open spec fn items_below(self, n: nat) -> Seq<Item<V>>
        decreases n,
    {
        if n == 0 {
            Seq::empty()
        } else {
            let head = self.items_below((n - 1) as nat);
            if self.values.contains_key((n - 1) as usize) {
                head.push(
                    Item {
                        offset: (n - 1) as usize,
                        stamp: 0,
                        value: self.values[(n - 1) as usize],
                    },
                )
            } else {
                head
            }
        }
    }

    /// What an iterator yields: the live values, each with its offset, in
    /// ascending order of the offsets.
    pub open spec fn items(self) -> Seq<Item<V>> {
        self.items_below(self.slots)
    }

    /// The live offsets below `n`.
    pub open spec fn live_below(self, n: nat) -> Set<usize> {
        self.values.dom().filter(|k: usize| k < n)
    }

    /// The largest number of values that were live at one time, before or
    /// in the course of a script.
    pub open spec fn peak(self, script: Seq<Call<V>>) -> nat
        decreases script.len(),
    {
        if script.len() == 0 {
            self.len()
        } else if self.peak(script.drop_last()) >= self.replay(script).len() {
            self.peak(script.drop_last())
        } else {
            self.replay(script).len()
        }
    }

    /// The number of `put`s of a script.
    pub open spec fn puts(script: Seq<Call<V>>) -> nat
        decreases script.len(),
    {
        if script.len() == 0 {
            0
        } else {
            Self::puts(script.drop_last()) + match script.last() {
                Call::Put(_) => 1nat,
                Call::Take(_) => 0nat,
            }
        }
    }

    /// The number of `take`s of a script that find their key live.
    pub open spec fn hits(self, script: Seq<Call<V>>) -> nat
        decreases script.len(),
    {
        if script.len() == 0 {
            0
        } else {
            let before = self.replay(script.drop_last());
            self.hits(script.drop_last()) + match script.last() {
                Call::Put(_) => 0nat,
                Call::Take(k) => if before.values.contains_key(k) {
                    1nat
                } else {
                    0nat
                },
            }
        }
    }

    /// Two tables, perhaps of different value types, with the same live
    /// offsets, the same free list and the same number of slots.
    pub open spec fn same_shape<W>(self, other: Table<W>) -> bool {
        &&& self.values.dom() == other.values.dom()
        &&& self.free == other.free
        &&& self.slots == other.slots
    }

    /// A new table is well-formed and empty.
    pub proof fn lemma_fresh()
        ensures
            Self::fresh().wf(),
            Self::fresh().len() == 0,
    {
    }

    /// `put` keeps the table well-formed, stores the value under a key that
    /// was not live, and adds one to the number of live values.
    pub proof fn lemma_put(self, value: V)
        requires
            self.wf(),
            self.has_room(),
        ensures
            self.put(value).wf(),
            !self.values.contains_key(self.next()),
            self.put(value).get(self.next()) == Some(value),
            self.put(value).len() == self.len() + 1,
    {
        let after = self.put(value);
        if self.free.len() > 0 {
            assert(self.free[0] == self.next());
            assert forall|i: int| 0 <= i < after.free.len() implies (#[trigger] after.free[i])
                < after.slots && !after.values.contains_key(after.free[i]) by {
                assert(after.free[i] == self.free[i + 1]);
            }
        } else {
            if self.values.contains_key(self.next()) {
                assert(self.next() < self.slots);
            }
        }
    }

    /// `take` keeps the table well-formed; it removes one live value where
    /// the key is live and changes nothing where it is not.
    pub proof fn lemma_take(self, k: usize)
        requires
            self.wf(),
        ensures
            self.take(k).wf(),
            self.take(k).get(k) is None,
            self.values.contains_key(k) ==> self.take(k).len() == self.len() - 1,
            !self.values.contains_key(k) ==> self.take(k) == self,
    {
        let after = self.take(k);
        if self.values.contains_key(k) {
            assert forall|i: int| 0 <= i < after.free.len() implies (#[trigger] after.free[i])
                < after.slots && !after.values.contains_key(after.free[i]) by {
                if i > 0 {
                    assert(after.free[i] == self.free[i - 1]);
                }
            }
            assert forall|i: int, j: int|
                0 <= i < after.free.len() && 0 <= j < after.free.len() && i != j implies after.free[i]
                != after.free[j] by {
                if i > 0 {
                    assert(after.free[i] == self.free[i - 1]);
                }
                if j > 0 {
                    assert(after.free[j] == self.free[j - 1]);
                }
            }
        }
    }

    /// Overwriting a live value keeps the table well-formed and its shape.
    pub proof fn lemma_set(self, k: usize, value: V)
        requires
            self.wf(),
            self.values.contains_key(k),
        ensures
            self.set(k, value).wf(),
            self.set(k, value).same_shape(self),
            self.set(k, value).len() == self.len(),
    {
        assert(self.set(k, value).values.dom() =~= self.values.dom());
    }

    /// A key that `put` has just returned gives the value back to `take`,
    /// after which the key is dead.
    pub proof fn lemma_put_then_take(self, value: V)
        requires
            self.wf(),
            self.has_room(),
        ensures
            self.put(value).get(self.next()) == Some(value),
            self.put(value).take(self.next()).get(self.next()) is None,
            self.put(value).take(self.next()).values == self.values,
    {
        self.lemma_put(value);
        assert(self.put(value).take(self.next()).values =~= self.values);
    }

    /// The slot of the value taken last is the first to be reused.
    pub proof fn lemma_take_then_put(self, k: usize)
        requires
            self.values.contains_key(k),
        ensures
            self.take(k).next() == k,
    {
    }

    /// A key is less than the number of slots, and the number of slots
    /// grows, by one, only while every slot is live: it never exceeds the
    /// largest number of values that were live at one time.
    pub proof fn lemma_key_bound(self, value: V)
        requires
            self.wf(),
            self.has_room(),
        ensures
            self.next() < self.put(value).slots,
            self.put(value).slots == self.slots || (self.len() == self.slots && self.put(
                value,
            ).slots == self.put(value).len()),
    {
        self.lemma_put(value);
    }

    /// Putting a sequence of values hands out one key for each, keeps the
    /// table well-formed while there is room, and adds their number to the
    /// number of live values.
    pub proof fn lemma_put_all(self, values: Seq<V>)
        requires
            self.wf(),
            self.slots + values.len() <= usize::MAX,
        ensures
            self.put_all(values).wf(),
            self.put_keys(values).len() == values.len(),
            self.put_all(values).len() == self.len() + values.len(),
            self.put_all(values).slots <= self.slots + values.len(),
        decreases values.len(),
    {
        if values.len() > 0 {
            self.lemma_put(values[0]);
            self.put(values[0]).lemma_put_all(values.drop_first());
        }
    }

    /// A table of the shape of a well-formed table is well-formed.
    pub proof fn lemma_same_shape<W>(self, other: Table<W>)
        requires
            self.wf(),
            other.same_shape(self),
        ensures
            other.wf(),
            other.len() == self.len(),
    {
        assert forall|k: usize| #[trigger] other.values.contains_key(k) implies k
            < other.slots by {
            assert(self.values.dom().contains(k));
            assert(self.values.contains_key(k));
        }
        assert forall|i: int| 0 <= i < other.free.len() implies (#[trigger] other.free[i])
            < other.slots && !other.values.contains_key(other.free[i]) by {
            assert(!self.values.contains_key(self.free[i]));
            assert(!self.values.dom().contains(self.free[i]));
        }
    }

    /// The items below `n` are the live values below `n`, each once, in
    /// ascending order.
    pub proof fn lemma_items_below(self, n: nat)
        requires
            self.values.dom().finite(),
            n <= usize::MAX + 1,
        ensures
            self.live_below(n).finite(),
            self.items_below(n).len() == self.live_below(n).len(),
            forall|j: int|
                0 <= j < self.items_below(n).len() ==> {
                    let item = #[trigger] self.items_below(n)[j];
                    &&& item.offset < n
                    &&& self.values.contains_key(item.offset)
                    &&& self.values[item.offset] == item.value
                    &&& item.stamp == 0
                },
            forall|i: int, j: int|
                0 <= i < j < self.items_below(n).len() ==> self.items_below(n)[i].offset
                    < self.items_below(n)[j].offset,
            forall|k: usize|
                k < n && self.values.contains_key(k) ==> exists|j: int|
                    0 <= j < self.items_below(n).len() && (#[trigger] self.items_below(
                        n,
                    )[j]).offset == k,
        decreases n,
    {
        if n == 0 {
            assert(self.live_below(0) =~= Set::<usize>::empty());
        } else {
            let m = (n - 1) as nat;
            self.lemma_items_below(m);
            let head = self.items_below(m);
            let items = self.items_below(n);
            if self.values.contains_key(m as usize) {
                assert(self.live_below(n) =~= self.live_below(m).insert(m as usize));
                assert(items[items.len() - 1].offset == m as usize);
            } else {
                assert(self.live_below(n) =~= self.live_below(m));
            }
            assert forall|k: usize| k < n && self.values.contains_key(k) implies exists|j: int|
                0 <= j < items.len() && (#[trigger] items[j]).offset == k by {
                if k < m {
                    let j = choose|j: int| 0 <= j < head.len() && (#[trigger] head[j]).offset == k;
                    assert(items[j] == head[j]);
                } else {
                    assert(items[items.len() - 1].offset == k);
                }
            }
        }
    }

    /// Iteration is complete: an iterator yields as many items as there are
    /// live values, each the live value at its offset, in ascending order
    /// of the offsets (so none twice), and none is left out.
    pub proof fn lemma_items(self)
        requires
            self.wf(),
        ensures
            self.items().len() == self.len(),
            forall|j: int|
                0 <= j < self.items().len() ==> {
                    let item = #[trigger] self.items()[j];
                    &&& self.get(item.offset) == Some(item.value)
                    &&& item.stamp == 0
                },
            forall|i: int, j: int|
                0 <= i < j < self.items().len() ==> self.items()[i].offset < self.items()[j].offset,
            forall|k: usize|
                self.values.contains_key(k) ==> exists|j: int|
                    0 <= j < self.items().len() && (#[trigger] self.items()[j]).offset == k,
    {
        self.lemma_items_below(self.slots);
        assert(self.live_below(self.slots) =~= self.values.dom());
    }

    /// A new table never has more slots than values were live at one time,
    /// and every key it hands out is less than that number.
    pub proof fn lemma_peak(script: Seq<Call<V>>)
        requires
            script.len() < usize::MAX,
        ensures
            Self::fresh().replay(script).wf(),
            Self::fresh().replay(script).slots <= script.len(),
            Self::fresh().replay(script).slots <= Self::fresh().peak(script),
            forall|i: int|
                0 <= i < Self::fresh().keys(script).len() ==> (#[trigger] Self::fresh().keys(
                    script,
                )[i]) < Self::fresh().peak(script),
        decreases script.len(),
    {
        let fresh = Self::fresh();
        if script.len() > 0 {
            let head = script.drop_last();
            Self::lemma_peak(head);
            let before = fresh.replay(head);
            match script.last() {
                Call::Put(value) => {
                    before.lemma_put(value);
                    before.lemma_key_bound(value);
                    let keys = fresh.keys(script);
                    assert forall|i: int| 0 <= i < keys.len() implies (#[trigger] keys[i])
                        < fresh.peak(script) by {
                        if i < keys.len() - 1 {
                            assert(keys[i] == fresh.keys(head)[i]);
                        }
                    }
                },
                Call::Take(k) => {
                    before.lemma_take(k);
                },
            }
        }
    }

    /// After any script the number of live values is the number of keys
    /// that were put and not successfully taken since.
    pub proof fn lemma_size(self, script: Seq<Call<V>>)
        requires
            self.wf(),
            self.slots + script.len() <= usize::MAX,
        ensures
            self.replay(script).wf(),
            self.replay(script).slots <= self.slots + script.len(),
            self.replay(script).len() + self.hits(script) == self.len() + Self::puts(script),
        decreases script.len(),
    {
        if script.len() > 0 {
            let head = script.drop_last();
            self.lemma_size(head);
            let before = self.replay(head);
            match script.last() {
                Call::Put(value) => {
                    before.lemma_put(value);
                },
                Call::Take(k) => {
                    before.lemma_take(k);
                },
            }
        }
    }

    /// The key that `put` returns, the fate of a `take` and the shape
    /// afterwards depend on the shape alone, not on the values.
    pub proof fn lemma_shape_decides<W>(self, other: Table<W>, v: V, w: W, k: usize)
        requires
            self.same_shape(other),
        ensures
            self.next() == other.next(),
            self.put(v).same_shape(other.put(w)),
            self.get(k) is Some <==> other.get(k) is Some,
            self.take(k).same_shape(other.take(k)),
    {
        assert(self.values.contains_key(k) <==> self.values.dom().contains(k));
        assert(other.values.contains_key(k) <==> other.values.dom().contains(k));
        assert(self.put(v).values.dom() =~= other.put(w).values.dom());
        assert(self.take(k).values.dom() =~= other.take(k).values.dom());
    }
}

/// Two scripts that make the same calls, whatever the values put.
pub open spec fn same_calls<V, W>(s: Seq<Call<V>>, t: Seq<Call<W>>) -> bool {
    &&& s.len() == t.len()
    &&& forall|i: int|
        0 <= i < s.len() ==> match (#[trigger] s[i], t[i]) {
            (Call::Put(_), Call::Put(_)) => true,
            (Call::Take(j), Call::Take(k)) => j == k,
            _ => false,
        }
}

/// Two tables of the same shape that see the same calls hand out the same
/// keys and stay of the same shape, whatever the values.
pub proof fn lemma_same_calls_same_keys<V, W>(
    a: Table<V>,
    b: Table<W>,
    s: Seq<Call<V>>,
    t: Seq<Call<W>>,
)
    requires
        a.same_shape(b),
        same_calls(s, t),
    ensures
        a.keys(s) == b.keys(t),
        a.replay(s).same_shape(b.replay(t)),
    decreases s.len(),
{
    if s.len() > 0 {
        let s0 = s.drop_last();
        let t0 = t.drop_last();
        assert(same_calls(s0, t0)) by {
            assert forall|i: int| 0 <= i < s0.len() implies match (#[trigger] s0[i], t0[i]) {
                (Call::Put(_), Call::Put(_)) => true,
                (Call::Take(j), Call::Take(k)) => j == k,
                _ => false,
            } by {
                assert(s0[i] == s[i] && t0[i] == t[i]);
            }
        }
        lemma_same_calls_same_keys(a, b, s0, t0);
        let x = s[s.len() - 1];
        let y = t[s.len() - 1];
        match (x, y) {
            (Call::Put(v), Call::Put(w)) => {
                a.replay(s0).lemma_shape_decides(b.replay(t0), v, w, 0);
            },
            (Call::Take(j), Call::Take(k)) => {
                let v = a.replay(s0).values[j];
                let w = b.replay(t0).values[j];
                a.replay(s0).lemma_shape_decides(b.replay(t0), v, w, j);
            },
            _ => {},
        }
    }
}

} // verus!
