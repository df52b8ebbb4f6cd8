//! The mathematical model of the version-guarded tables, and the laws of
//! their operations.

use vstd::prelude::*;
use crate::scan::Item;
use crate::unique_stash::tag::Tag;

verus! {

/// The number of versions that a slot can have: one more than `u64::MAX`.
pub open spec fn version_space() -> nat {
    0x1_0000_0000_0000_0000
}

/// What a version-guarded table is to its callers.
#[verifier::ext_equal]
pub struct VerTable<V> {
    /// The live values, by the offset of their slot.
    pub values: Map<usize, V>,
    /// For each slot, the version it began with plus the number of times it
    /// was vacated.
    pub epochs: Seq<nat>,
    /// The vacant slots; `put` fills the first.
    pub free: Seq<usize>,
}

/// One call of a script of `put`s and `take`s.
pub enum VerCall<V> {
    /// `put` of a value.
    Put(V),
    /// `take` of a key.
    Take(Tag),
}

impl<V> VerTable<V> {
    /// The table that `new` returns.
    pub open spec fn fresh() -> Self {
        VerTable { values: Map::empty(), epochs: Seq::empty(), free: Seq::empty() }
    }

    /// The number of slots, vacant or not.
    pub open spec fn slots(self) -> nat {
        self.epochs.len()
    }

    /// Every slot is either live or on the free list, once.
    pub open spec fn wf(self) -> bool {
        &&& self.slots() <= usize::MAX
        &&& self.values.dom().finite()
        &&& self.free.no_duplicates()
        &&& forall|k: usize| #[trigger] self.values.contains_key(k) ==> k < self.slots()
        &&& forall|i: int|
            0 <= i < self.free.len() ==> (#[trigger] self.free[i]) < self.slots()
                && !self.values.contains_key(self.free[i])
        &&& self.values.len() + self.free.len() == self.slots()
    }

    /// The number of live values.
    pub open spec fn len(self) -> nat {
        self.values.len()
    }

    /// The version of the slot at offset `k`: its epoch, wrapped.
    pub open spec fn version(self, k: usize) -> u64 {
        (self.epochs[k as int] % version_space()) as u64
    }

    /// Whether `tag` is the key of a live value: its slot is live and has
    /// the tag's version.
    pub open spec fn contains(self, tag: Tag) -> bool {
        self.values.contains_key(tag.idx) && self.version(tag.idx) == tag.ver
    }

    /// The key of the live value at offset `k`.
    pub open spec fn tag_at(self, k: usize) -> Tag {
        Tag { idx: k, ver: self.version(k) }
    }

    /// The key that the next `put` returns: the head of the free list in its
    /// present version, or a new slot in version 0 while none is vacant.
    pub open spec fn next(self) -> Tag {
        if self.free.len() > 0 {
            self.tag_at(self.free[0])
        } else {
            Tag { idx: self.slots() as usize, ver: 0 }
        }
    }

    /// Whether a `put` finds room: a vacant slot, or an offset for a new one.
    pub open spec fn has_room(self) -> bool {
        self.free.len() > 0 || self.slots() < usize::MAX
    }

    /// The table after `put(value)`. The version of the slot stays.
    pub open spec fn put(self, value: V) -> Self {
        if self.free.len() > 0 {
            VerTable {
                values: self.values.insert(self.next().idx, value),
                epochs: self.epochs,
                free: self.free.drop_first(),
            }
        } else {
            VerTable {
                values: self.values.insert(self.next().idx, value),
                epochs: self.epochs.push(0),
                free: self.free,
            }
        }
    }

    /// What `get` and `take` return for `tag`.
    pub open spec fn get(self, tag: Tag) -> Option<V> {
        if self.contains(tag) {
            Some(self.values[tag.idx])
        } else {
            None
        }
    }

    /// The table after the live slot at offset `k` was vacated: it becomes
    /// the head of the free list, in its next version.
    pub open spec fn vacate(self, k: usize) -> Self {
        VerTable {
            values: self.values.remove(k),
            epochs: self.epochs.update(k as int, self.epochs[k as int] + 1),
            free: seq![k] + self.free,
        }
    }

    /// The table after `take(tag)`: a live key has its slot vacated,
    /// anything else changes nothing.
    pub open spec fn take(self, tag: Tag) -> Self {
        if self.contains(tag) {
            self.vacate(tag.idx)
        } else {
            self
        }
    }

    /// The table after the live value at offset `k` was overwritten.
    pub open spec fn set(self, k: usize, value: V) -> Self {
        VerTable { values: self.values.insert(k, value), epochs: self.epochs, free: self.free }
    }

    /// The table after the live slots below offset `n` were vacated, in
    /// ascending order.
    pub open spec fn clear_below(self, n: nat) -> Self
        decreases n,
    {
        if n == 0 {
            self
        } else {
            let before = self.clear_below((n - 1) as nat);
            if before.values.contains_key((n - 1) as usize) {
                before.vacate((n - 1) as usize)
            } else {
                before
            }
        }
    }

    /// The table after `clear`: every live slot was vacated, in ascending
    /// order.
    pub open spec fn clear(self) -> Self {
        self.clear_below(self.slots())
    }

    /// The table after the values of `values` were put, first to last.
    pub open spec fn put_all(self, values: Seq<V>) -> Self
        decreases values.len(),
    {
        if values.len() == 0 {
            self
        } else {
            self.put(values[0]).put_all(values.drop_first())
        }
    }

    /// The keys that `put` returns for the values of `values`, put first to
    /// last.
    pub open spec fn put_keys(self, values: Seq<V>) -> Seq<Tag>
        decreases values.len(),
    {
        if values.len() == 0 {
            Seq::empty()
        } else {
            seq![self.next()] + self.put(values[0]).put_keys(values.drop_first())
        }
    }

    /// The live values at offsets below `n`, each with its key, in
    /// ascending order of the offsets.
    pub open spec fn items_below(self, n: nat) -> Seq<Item<V>>
        decreases n,
    {
        if n == 0 {
            Seq::empty()
        } else {
            let head = self.items_below((n - 1) as nat);
            if self.values.contains_key((n - 1) as usize) {
                head.push(
                    Item {
                        offset: (n - 1) as usize,
                        stamp: self.version((n - 1) as usize),
                        value: self.values[(n - 1) as usize],
                    },
                )
            } else {
                head
            }
        }
    }

    /// What an iterator yields: the live values, each with its key, in
    /// ascending order of the offsets.
    pub open spec fn items(self) -> Seq<Item<V>> {
        self.items_below(self.slots())
    }

    /// The live offsets below `n`.
    pub open spec fn live_below(self, n: nat) -> Set<usize> {
        self.values.dom().filter(|k: usize| k < n)
    }

    /// The stored form of the table: for each slot, in the order of the
    /// offsets, its version and its value, if it is live.
    pub open spec fn stored(self) -> Seq<(u64, Option<V>)> {
        Seq::new(
            self.slots(),
            |k: int|
                (
                    self.version(k as usize),
                    if self.values.contains_key(k as usize) {
                        Some(self.values[k as usize])
                    } else {
                        None
                    },
                ),
        )
    }

    /// The table of a stored form: the values and versions as stored, and
    /// the vacant slots on the free list in descending order of their
    /// offsets.
    pub open spec fn restored(stored: Seq<(u64, Option<V>)>) -> Self {
        VerTable {
            values: Map::new(
                |k: usize| k < stored.len() && stored[k as int].1 is Some,
                |k: usize| stored[k as int].1->0,
            ),
            epochs: Seq::new(stored.len(), |k: int| stored[k].0 as nat),
            free: vacant_below(stored, stored.len()),
        }
    }

    /// The table after one call.
    pub open spec fn step(self, call: VerCall<V>) -> Self {
        match call {
            VerCall::Put(value) => self.put(value),
            VerCall::Take(tag) => self.take(tag),
        }
    }

    /// The table after a script of calls.
    pub open spec fn replay(self, script: Seq<VerCall<V>>) -> Self
        decreases script.len(),
    {
        if script.len() == 0 {
            self
        } else {
            self.replay(script.drop_last()).step(script.last())
        }
    }

    /// The keys that the `put`s of a script return, in order.
    pub open spec fn keys(self, script: Seq<VerCall<V>>) -> Seq<Tag>
        decreases script.len(),
    {
        if script.len() == 0 {
            Seq::empty()
        } else {
            let before = self.replay(script.drop_last());
            match script.last() {
                VerCall::Put(_) => self.keys(script.drop_last()).push(before.next()),
                VerCall::Take(_) => self.keys(script.drop_last()),
            }
        }
    }

    /// The number of `put`s of a script.
    pub open spec fn puts(script: Seq<VerCall<V>>) -> nat
        decreases script.len(),
    {
        if script.len() == 0 {
            0
        } else {
            Self::puts(script.drop_last()) + match script.last() {
                VerCall::Put(_) => 1nat,
                VerCall::Take(_) => 0nat,
            }
        }
    }

    /// The number of `take`s of a script that find their key live.
    pub open spec fn hits(self, script: Seq<VerCall<V>>) -> nat
        decreases script.len(),
    {
        if script.len() == 0 {
            0
        } else {
            let before = self.replay(script.drop_last());
            self.hits(script.drop_last()) + match script.last() {
                VerCall::Put(_) => 0nat,
                VerCall::Take(k) => if before.contains(k) {
                    1nat
                } else {
                    0nat
                },
            }
        }
    }

    /// Two tables, perhaps of different value types, with the same live
    /// offsets, the same epochs and the same free list.
    pub open spec fn same_shape<W>(self, other: VerTable<W>) -> bool {
        &&& self.values.dom() == other.values.dom()
        &&& self.epochs == other.epochs
        &&& self.free == other.free
    }

    /// No slot of `later` has an epoch below its epoch in `self`, and none
    /// was dropped.
    pub open spec fn precedes(self, later: Self) -> bool {
        &&& self.slots() <= later.slots()
        &&& forall|k: int| 0 <= k < self.slots() ==> self.epochs[k] <= #[trigger] later.epochs[k]
    }
}

/// The vacant slots below offset `n` of a stored table, in descending order
/// of the offsets.
pub open spec fn vacant_below<V>(stored: Seq<(u64, Option<V>)>, n: nat) -> Seq<usize>
    decreases n,
{
    if n == 0 {
        Seq::empty()
    } else if stored[n - 1].1 is None {
        seq![(n - 1) as usize] + vacant_below(stored, (n - 1) as nat)
    } else {
        vacant_below(stored, (n - 1) as nat)
    }
}

/// The vacant slots below `n` are vacant, lie below `n` and descend.
pub proof fn lemma_vacant_below<V>(stored: Seq<(u64, Option<V>)>, n: nat)
    requires
        n <= stored.len() <= usize::MAX,
    ensures
        vacant_below(stored, n).len() <= n,
        forall|i: int|
            0 <= i < vacant_below(stored, n).len() ==> (#[trigger] vacant_below(stored, n)[i]) < n
                && stored[vacant_below(stored, n)[i] as int].1 is None,
        forall|i: int, j: int|
            0 <= i < j < vacant_below(stored, n).len() ==> vacant_below(stored, n)[i]
                > vacant_below(stored, n)[j],
        forall|k: int|
            0 <= k < n && stored[k].1 is None ==> vacant_below(stored, n).contains(k as usize),
    decreases n,
{
    if n > 0 {
        let m = (n - 1) as nat;
        lemma_vacant_below(stored, m);
        let head = vacant_below(stored, m);
        let all = vacant_below(stored, n);
        if stored[n - 1].1 is None {
            assert forall|i: int| 0 <= i < all.len() implies (#[trigger] all[i]) < n
                && stored[all[i] as int].1 is None by {
                if i > 0 {
                    assert(all[i] == head[i - 1]);
                }
            }
            assert forall|i: int, j: int| 0 <= i < j < all.len() implies all[i] > all[j] by {
                assert(all[j] == head[j - 1]);
                if i > 0 {
                    assert(all[i] == head[i - 1]);
                }
            }
            assert forall|k: int| 0 <= k < n && stored[k].1 is None implies all.contains(
                k as usize,
            ) by {
                if k < m {
                    let i = choose|i: int| 0 <= i < head.len() && head[i] == k as usize;
                    assert(all[i + 1] == k as usize);
                } else {
                    assert(all[0] == k as usize);
                }
            }
        }
    }
}

/// Vacating a slot takes its version up by one, and from the last version
/// back to 0.
pub proof fn lemma_version_wraps(epoch: nat)
    ensures
        (epoch + 1) % version_space() == if epoch % version_space() == u64::MAX {
            0
        } else {
            epoch % version_space() + 1
        },
{
    let r = version_space() as int;
    let e = epoch as int;
    vstd::arithmetic::div_mod::lemma_fundamental_div_mod(e, r);
    if e % r == u64::MAX {
        vstd::arithmetic::div_mod::lemma_mod_multiples_basic(e / r + 1, r);
        assert(e + 1 == (e / r + 1) * r) by (nonlinear_arith)
            requires
                e == r * (e / r) + u64::MAX,
                r == u64::MAX + 1,
        ;
    } else {
        vstd::arithmetic::div_mod::lemma_fundamental_div_mod_converse(
            e + 1,
            r,
            e / r,
            e % r + 1,
        );
    }
}

/// Two epochs less than a whole version space apart wrap to different
/// versions.
pub proof fn lemma_versions_differ(a: nat, b: nat)
    requires
        a < b < a + version_space(),
    ensures
        a % version_space() != b % version_space(),
{
    let r = version_space() as int;
    let a = a as int;
    let b = b as int;
    assert(a % r != b % r) by (nonlinear_arith)
        requires
            r > 0,
            a < b < a + r,
    {
        if a % r == b % r {
            assert(a == r * (a / r) + a % r);
            assert(b == r * (b / r) + b % r);
            assert(b - a == r * (b / r - a / r));
            assert(b / r - a / r >= 1 ==> r * (b / r - a / r) >= r);
            assert(b / r - a / r <= 0 ==> r * (b / r - a / r) <= 0);
        }
    }
}

impl<V> VerTable<V> {
    /// A new table is well-formed and empty.
    pub proof fn lemma_fresh()
        ensures
            Self::fresh().wf(),
            Self::fresh().len() == 0,
    {
    }

    /// `put` keeps the table well-formed, stores the value under a key that
    /// was not live, adds one to the number of live values, and changes no
    /// epoch.
    pub proof fn lemma_put(self, value: V)
        requires
            self.wf(),
            self.has_room(),
        ensures
            self.put(value).wf(),
            !self.values.contains_key(self.next().idx),
            self.put(value).get(self.next()) == Some(value),
            self.put(value).len() == self.len() + 1,
            self.precedes(self.put(value)),
            self.next().idx < self.put(value).slots(),
    {
        let after = self.put(value);
        if self.free.len() > 0 {
            assert(self.free[0] == self.next().idx);
            assert forall|i: int| 0 <= i < after.free.len() implies (#[trigger] after.free[i])
                < after.slots() && !after.values.contains_key(after.free[i]) by {
                assert(after.free[i] == self.free[i + 1]);
            }
        } else {
            if self.values.contains_key(self.next().idx) {
                assert(self.next().idx < self.slots());
            }
        }
    }

    /// Vacating a live slot keeps the table well-formed, removes one live
    /// value and adds one to the epoch of the slot.
    pub proof fn lemma_vacate(self, k: usize)
        requires
            self.wf(),
            self.values.contains_key(k),
        ensures
            self.vacate(k).wf(),
            self.vacate(k).len() == self.len() - 1,
            self.vacate(k).slots() == self.slots(),
            self.vacate(k).epochs[k as int] == self.epochs[k as int] + 1,
            self.precedes(self.vacate(k)),
            !self.vacate(k).values.contains_key(k),
    {
        let after = self.vacate(k);
        assert forall|i: int| 0 <= i < after.free.len() implies (#[trigger] after.free[i])
            < after.slots() && !after.values.contains_key(after.free[i]) by {
            if i > 0 {
                assert(after.free[i] == self.free[i - 1]);
            }
        }
        assert forall|i: int, j: int|
            0 <= i < after.free.len() && 0 <= j < after.free.len() && i != j implies after.free[i]
            != after.free[j] by {
            if i > 0 {
                assert(after.free[i] == self.free[i - 1]);
            }
            if j > 0 {
                assert(after.free[j] == self.free[j - 1]);
            }
        }
    }

    /// `take` keeps the table well-formed; it removes one live value where
    /// the key is live and changes nothing where it is not. Afterwards the
    /// key is dead.
    pub proof fn lemma_take(self, tag: Tag)
        requires
            self.wf(),
        ensures
            self.take(tag).wf(),
            self.take(tag).get(tag) is None,
            self.contains(tag) ==> self.take(tag).len() == self.len() - 1,
            !self.contains(tag) ==> self.take(tag) == self,
            self.precedes(self.take(tag)),
    {
        if self.contains(tag) {
            self.lemma_vacate(tag.idx);
        }
    }

    /// Overwriting a live value keeps the table well-formed and its shape.
    pub proof fn lemma_set(self, k: usize, value: V)
        requires
            self.wf(),
            self.values.contains_key(k),
        ensures
            self.set(k, value).wf(),
            self.set(k, value).same_shape(self),
            self.set(k, value).len() == self.len(),
    {
        assert(self.set(k, value).values.dom() =~= self.values.dom());
    }

    /// A key that `put` has just returned gives the value back to `take`,
    /// after which the key is dead.
    pub proof fn lemma_put_then_take(self, value: V)
        requires
            self.wf(),
            self.has_room(),
        ensures
            self.put(value).get(self.next()) == Some(value),
            self.put(value).take(self.next()).get(self.next()) is None,
            self.put(value).take(self.next()).values == self.values,
    {
        self.lemma_put(value);
        self.put(value).lemma_take(self.next());
        assert(self.put(value).take(self.next()).values =~= self.values);
    }

    /// The slot of the value taken last is the first to be reused, in its
    /// next version: the new key differs from the one taken.
    pub proof fn lemma_take_then_put(self, tag: Tag)
        requires
            self.wf(),
            self.contains(tag),
        ensures
            self.take(tag).next().idx == tag.idx,
            self.take(tag).next() != tag,
    {
        self.lemma_vacate(tag.idx);
        lemma_versions_differ(self.epochs[tag.idx as int], self.epochs[tag.idx as int] + 1);
    }

    /// `precedes` is reflexive and transitive.
    pub proof fn lemma_precedes_chain(self, mid: Self, later: Self)
        requires
            self.precedes(mid),
            mid.precedes(later),
        ensures
            self.precedes(self),
            self.precedes(later),
    {
        assert forall|k: int| 0 <= k < self.slots() implies self.epochs[k]
            <= #[trigger] later.epochs[k] by {
            assert(self.epochs[k] <= mid.epochs[k]);
        }
    }

    /// Vacating the live slots below `n` keeps the table well-formed and
    /// leaves no live value below `n`; the values from `n` on stay.
    pub proof fn lemma_clear_below(self, n: nat)
        requires
            self.wf(),
            n <= self.slots(),
        ensures
            self.clear_below(n).wf(),
            self.clear_below(n).slots() == self.slots(),
            self.precedes(self.clear_below(n)),
            forall|k: usize|
                self.clear_below(n).values.contains_key(k) <==> (self.values.contains_key(k) && k
                    >= n),
            forall|k: usize|
                self.clear_below(n).values.contains_key(k) ==> self.clear_below(n).values[k]
                    == self.values[k],
            forall|k: int|
                0 <= k < self.slots() ==> #[trigger] self.clear_below(n).epochs[k] == if k < n
                    && self.values.contains_key(k as usize) {
                    self.epochs[k] + 1
                } else {
                    self.epochs[k]
                },
        decreases n,
    {
        if n > 0 {
            let before = self.clear_below((n - 1) as nat);
            self.lemma_clear_below((n - 1) as nat);
            if before.values.contains_key((n - 1) as usize) {
                before.lemma_vacate((n - 1) as usize);
            }
            let after = self.clear_below(n);
            assert forall|k: usize| after.values.contains_key(k) <==> (self.values.contains_key(k)
                && k >= n) by {
                assert(before.values.contains_key(k) <==> (self.values.contains_key(k) && k >= n
                    - 1));
            }
        }
    }

    /// `clear` keeps the table well-formed and leaves no live value: every
    /// key that was live is dead.
    pub proof fn lemma_clear(self, tag: Tag)
        requires
            self.wf(),
        ensures
            self.clear().wf(),
            self.clear().len() == 0,
            self.clear().values == Map::<usize, V>::empty(),
            self.clear().slots() == self.slots(),
            self.precedes(self.clear()),
            !self.clear().contains(tag),
    {
        self.lemma_clear_below(self.slots());
        assert forall|k: usize| !self.clear().values.contains_key(k) by {
            if self.values.contains_key(k) {
                assert(k < self.slots());
            }
        }
        assert(self.clear().values =~= Map::<usize, V>::empty());
    }

    /// A key does not come back. Where `tag` was the key of a live value
    /// and its slot has been vacated since, `tag` is the key of no live
    /// value, as long as the slot has been vacated less often than there
    /// are versions.
    pub proof fn lemma_no_reuse(self, later: Self, tag: Tag)
        requires
            self.wf(),
            self.contains(tag),
            self.epochs[tag.idx as int] < later.epochs[tag.idx as int],
            later.epochs[tag.idx as int] < self.epochs[tag.idx as int] + version_space(),
        ensures
            !later.contains(tag),
    {
        lemma_versions_differ(self.epochs[tag.idx as int], later.epochs[tag.idx as int]);
    }

    /// Putting a sequence of values hands out one key for each, keeps the
    /// table well-formed while there is room, and adds their number to the
    /// number of live values.
    pub proof fn lemma_put_all(self, values: Seq<V>)
        requires
            self.wf(),
            self.slots() + values.len() <= usize::MAX,
        ensures
            self.put_all(values).wf(),
            self.put_keys(values).len() == values.len(),
            self.put_all(values).len() == self.len() + values.len(),
            self.put_all(values).slots() <= self.slots() + values.len(),
            self.precedes(self.put_all(values)),
        decreases values.len(),
    {
        if values.len() > 0 {
            self.lemma_put(values[0]);
            self.put(values[0]).lemma_put_all(values.drop_first());
            self.lemma_precedes_chain(self.put(values[0]), self.put_all(values));
        } else {
            self.lemma_precedes_chain(self, self);
        }
    }

    /// A table of the shape of a well-formed table is well-formed.
    pub proof fn lemma_same_shape<W>(self, other: VerTable<W>)
        requires
            self.wf(),
            other.same_shape(self),
        ensures
            other.wf(),
            other.len() == self.len(),
    {
        assert forall|k: usize| #[trigger] other.values.contains_key(k) implies k
            < other.slots() by {
            assert(self.values.dom().contains(k));
            assert(self.values.contains_key(k));
        }
        assert forall|i: int| 0 <= i < other.free.len() implies (#[trigger] other.free[i])
            < other.slots() && !other.values.contains_key(other.free[i]) by {
            assert(!self.values.contains_key(self.free[i]));
            assert(!self.values.dom().contains(self.free[i]));
        }
    }

    /// The items below `n` are the live values below `n`, each once, in
    /// ascending order.
    pub proof fn lemma_items_below(self, n: nat)
        requires
            self.values.dom().finite(),
            n <= usize::MAX + 1,
        ensures
            self.live_below(n).finite(),
            self.items_below(n).len() == self.live_below(n).len(),
            forall|j: int|
                0 <= j < self.items_below(n).len() ==> {
                    let item = #[trigger] self.items_below(n)[j];
                    &&& item.offset < n
                    &&& self.values.contains_key(item.offset)
                    &&& self.values[item.offset] == item.value
                    &&& item.stamp == self.version(item.offset)
                },
            forall|i: int, j: int|
                0 <= i < j < self.items_below(n).len() ==> self.items_below(n)[i].offset
                    < self.items_below(n)[j].offset,
            forall|k: usize|
                k < n && self.values.contains_key(k) ==> exists|j: int|
                    0 <= j < self.items_below(n).len() && (#[trigger] self.items_below(
                        n,
                    )[j]).offset == k,
        decreases n,
    {
        if n == 0 {
            assert(self.live_below(0) =~= Set::<usize>::empty());
        } else {
            let m = (n - 1) as nat;
            self.lemma_items_below(m);
            let head = self.items_below(m);
            let items = self.items_below(n);
            if self.values.contains_key(m as usize) {
                assert(self.live_below(n) =~= self.live_below(m).insert(m as usize));
                assert(items[items.len() - 1].offset == m as usize);
            } else {
                assert(self.live_below(n) =~= self.live_below(m));
            }
            assert forall|k: usize| k < n && self.values.contains_key(k) implies exists|j: int|
                0 <= j < items.len() && (#[trigger] items[j]).offset == k by {
                if k < m {
                    let j = choose|j: int| 0 <= j < head.len() && (#[trigger] head[j]).offset == k;
                    assert(items[j] == head[j]);
                } else {
                    assert(items[items.len() - 1].offset == k);
                }
            }
        }
    }

    /// Iteration is complete: an iterator yields as many items as there are
    /// live values, each a live value with its key, in ascending order of
    /// the offsets (so none twice), and none is left out.
    pub proof fn lemma_items(self)
        requires
            self.wf(),
        ensures
            self.items().len() == self.len(),
            forall|j: int|
                0 <= j < self.items().len() ==> {
                    let item = #[trigger] self.items()[j];
                    &&& self.contains(item.tag())
                    &&& self.get(item.tag()) == Some(item.value)
                },
            forall|i: int, j: int|
                0 <= i < j < self.items().len() ==> self.items()[i].offset < self.items()[j].offset,
            forall|k: usize|
                self.values.contains_key(k) ==> exists|j: int|
                    0 <= j < self.items().len() && (#[trigger] self.items()[j]).offset == k,
    {
        self.lemma_items_below(self.slots());
        assert(self.live_below(self.slots()) =~= self.values.dom());
    }

    /// The table of a stored form is well-formed, and has the versions and
    /// values that were stored.
    pub proof fn lemma_restored(stored: Seq<(u64, Option<V>)>)
        requires
            stored.len() <= usize::MAX,
        ensures
            Self::restored(stored).wf(),
            Self::restored(stored).slots() == stored.len(),
            Self::restored(stored).stored() == stored,
    {
        let table = Self::restored(stored);
        Self::lemma_restored_count(stored, stored.len());
        lemma_vacant_below(stored, stored.len());
        assert(table.live_below(stored.len()) =~= table.values.dom());
        assert forall|i: int, j: int|
            0 <= i < table.free.len() && 0 <= j < table.free.len() && i != j implies table.free[i]
            != table.free[j] by {
            if i < j {
                assert(table.free[i] > table.free[j]);
            } else {
                assert(table.free[j] > table.free[i]);
            }
        }
        assert forall|k: int| 0 <= k < stored.len() implies #[trigger] table.stored()[k]
            == stored[k] by {
            assert((stored[k].0 as nat) % version_space() == stored[k].0 as nat);
        }
        assert(table.stored() =~= stored);
    }

    /// Below each offset, the live and the vacant slots of a stored form
    /// add up.
    proof fn lemma_restored_count(stored: Seq<(u64, Option<V>)>, n: nat)
        requires
            n <= stored.len() <= usize::MAX,
        ensures
            Self::restored(stored).live_below(n).finite(),
            Self::restored(stored).live_below(n).len() + vacant_below(stored, n).len() == n,
        decreases n,
    {
        let table = Self::restored(stored);
        if n == 0 {
            assert(table.live_below(0) =~= Set::<usize>::empty());
        } else {
            let m = (n - 1) as nat;
            Self::lemma_restored_count(stored, m);
            if stored[n - 1].1 is None {
                assert(table.live_below(n) =~= table.live_below(m));
            } else {
                assert(table.live_below(n) =~= table.live_below(m).insert(m as usize));
            }
        }
    }

    /// Storing and restoring keeps every live key with its value, and the
    /// version of every slot: what was iterated before is iterated after,
    /// and a key that was dead stays dead.
    pub proof fn lemma_stored_restored(self, tag: Tag)
        requires
            self.wf(),
        ensures
            Self::restored(self.stored()).wf(),
            Self::restored(self.stored()).values == self.values,
            Self::restored(self.stored()).slots() == self.slots(),
            forall|k: usize| k < self.slots() ==> Self::restored(self.stored()).version(k)
                == self.version(k),
            Self::restored(self.stored()).get(tag) == self.get(tag),
            Self::restored(self.stored()).items() == self.items(),
    {
        let again = Self::restored(self.stored());
        Self::lemma_restored(self.stored());
        assert(again.values =~= self.values) by {
            assert forall|k: usize| again.values.contains_key(k) == self.values.contains_key(
                k,
            ) by {
                if self.values.contains_key(k) {
                    assert(k < self.slots());
                }
            }
            assert forall|k: usize| again.values.contains_key(k) implies again.values[k]
                == self.values[k] by {}
        }
        assert forall|k: usize| k < self.slots() implies again.version(k) == self.version(k) by {
            assert(again.epochs[k as int] == self.stored()[k as int].0 as nat);
            assert((self.version(k) as nat) % version_space() == self.version(k) as nat);
        }
        if self.values.contains_key(tag.idx) {
            assert(tag.idx < self.slots());
        }
        self.lemma_same_items(again, self.slots());
    }

    /// Two tables with the same values and the same versions below `n`
    /// yield the same items below `n`.
    proof fn lemma_same_items(self, other: Self, n: nat)
        requires
            self.values == other.values,
            forall|k: usize| k < n ==> self.version(k) == other.version(k),
        ensures
            self.items_below(n) == other.items_below(n),
        decreases n,
    {
        if n > 0 {
            self.lemma_same_items(other, (n - 1) as nat);
        }
    }

    /// After any script the number of live values is the number of keys
    /// that were put and not successfully taken since.
    pub proof fn lemma_size(self, script: Seq<VerCall<V>>)
        requires
            self.wf(),
            self.slots() + script.len() <= usize::MAX,
        ensures
            self.replay(script).wf(),
            self.replay(script).slots() <= self.slots() + script.len(),
            self.replay(script).len() + self.hits(script) == self.len() + Self::puts(script),
        decreases script.len(),
    {
        if script.len() > 0 {
            let head = script.drop_last();
            self.lemma_size(head);
            let before = self.replay(head);
            match script.last() {
                VerCall::Put(value) => {
                    before.lemma_put(value);
                },
                VerCall::Take(k) => {
                    before.lemma_take(k);
                },
            }
        }
    }

    /// Once a key has been taken, no script of `put`s and `take`s makes it
    /// live again, as long as its slot is vacated less often than there are
    /// versions.
    pub proof fn lemma_taken_stays_dead(self, tag: Tag, script: Seq<VerCall<V>>)
        requires
            self.wf(),
            self.contains(tag),
            self.slots() + script.len() <= usize::MAX,
            self.take(tag).replay(script).epochs[tag.idx as int] < self.epochs[tag.idx as int]
                + version_space(),
        ensures
            !self.take(tag).replay(script).contains(tag),
    {
        let taken = self.take(tag);
        self.lemma_vacate(tag.idx);
        taken.lemma_size(script);
        taken.lemma_never_back(script);
        self.lemma_no_reuse(taken.replay(script), tag);
    }

    /// No script takes an epoch back.
    pub proof fn lemma_never_back(self, script: Seq<VerCall<V>>)
        requires
            self.wf(),
            self.slots() + script.len() <= usize::MAX,
        ensures
            self.precedes(self.replay(script)),
        decreases script.len(),
    {
        if script.len() > 0 {
            let head = script.drop_last();
            self.lemma_size(head);
            self.lemma_never_back(head);
            let before = self.replay(head);
            match script.last() {
                VerCall::Put(value) => {
                    before.lemma_put(value);
                },
                VerCall::Take(k) => {
                    before.lemma_take(k);
                },
            }
            self.lemma_precedes_chain(before, self.replay(script));
        } else {
            self.lemma_precedes_chain(self, self);
        }
    }

    /// The key that `put` returns, the fate of a `take` and the shape
    /// afterwards depend on the shape alone, not on the values.
    pub proof fn lemma_shape_decides<W>(self, other: VerTable<W>, v: V, w: W, tag: Tag)
        requires
            self.same_shape(other),
        ensures
            self.next() == other.next(),
            self.put(v).same_shape(other.put(w)),
            self.contains(tag) <==> other.contains(tag),
            self.take(tag).same_shape(other.take(tag)),
    {
        let k = tag.idx;
        assert(self.values.contains_key(k) <==> self.values.dom().contains(k));
        assert(other.values.contains_key(k) <==> other.values.dom().contains(k));
        assert(self.put(v).values.dom() =~= other.put(w).values.dom());
        assert(self.take(tag).values.dom() =~= other.take(tag).values.dom());
    }
}

/// Two scripts that make the same calls, whatever the values put.
pub open spec fn same_calls<V, W>(s: Seq<VerCall<V>>, t: Seq<VerCall<W>>) -> bool {
    &&& s.len() == t.len()
    &&& forall|i: int|
        0 <= i < s.len() ==> match (#[trigger] s[i], t[i]) {
            (VerCall::Put(_), VerCall::Put(_)) => true,
            (VerCall::Take(j), VerCall::Take(k)) => j == k,
            _ => false,
        }
}

/// Two tables of the same shape that see the same calls hand out the same
/// keys and stay of the same shape, whatever the values.
pub proof fn lemma_same_calls_same_keys<V, W>(
    a: VerTable<V>,
    b: VerTable<W>,
    s: Seq<VerCall<V>>,
    t: Seq<VerCall<W>>,
)
    requires
        a.same_shape(b),
        same_calls(s, t),
    ensures
        a.keys(s) == b.keys(t),
        a.replay(s).same_shape(b.replay(t)),
    decreases s.len(),
{
    if s.len() > 0 {
        let s0 = s.drop_last();
        let t0 = t.drop_last();
        assert(same_calls(s0, t0)) by {
            assert forall|i: int| 0 <= i < s0.len() implies match (#[trigger] s0[i], t0[i]) {
                (VerCall::Put(_), VerCall::Put(_)) => true,
                (VerCall::Take(j), VerCall::Take(k)) => j == k,
                _ => false,
            } by {
                assert(s0[i] == s[i] && t0[i] == t[i]);
            }
        }
        lemma_same_calls_same_keys(a, b, s0, t0);
        let x = s[s.len() - 1];
        let y = t[s.len() - 1];
        match (x, y) {
            (VerCall::Put(v), VerCall::Put(w)) => {
                a.replay(s0).lemma_shape_decides(b.replay(t0), v, w, Tag { idx: 0, ver: 0 });
            },
            (VerCall::Take(j), VerCall::Take(k)) => {
                let v = a.replay(s0).values[j.idx];
                let w = b.replay(t0).values[j.idx];
                a.replay(s0).lemma_shape_decides(b.replay(t0), v, w, j);
            },
            _ => {},
        }
    }
}

} // verus!
