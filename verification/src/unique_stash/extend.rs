//! Putting a sequence of values, one at a time.

use std::collections::VecDeque;
use vstd::prelude::*;
use crate::unique_stash::tag::Tag;
use crate::unique_stash::UniqueStash;

verus! {

/// The cursor produced by `UniqueStash::extend`: each step pulls one value from
/// the source, from either end, puts it and yields its key.
///
/// A cursor that is dropped leaves the values not yet pulled unput; `count`,
/// `collect` and `finish` put them all.
pub struct Extend<'a, V> {
    /// The values not yet put.
    pub source: VecDeque<V>,
    /// The stash that receives them.
    pub stash: &'a mut UniqueStash<V>,
}

impl<'a, V> Extend<'a, V> {
    /// The cursor borrows a well-formed stash that has room for the values
    /// left.
    pub open spec fn wf(&self) -> bool {
        &&& self.stash.wf()
        &&& self.stash@.slots() + self.source@.len() <= usize::MAX
    }

    /// Puts the first of the values left and yields its key.
    pub fn next(&mut self) -> (res: Option<Tag>)
        requires
            old(self).wf(),
        ensures
            final(self).wf(),
            *final(final(self).stash) == *final(old(self).stash),
            match res {
                Some(key) => {
                    &&& old(self).source@.len() > 0
                    &&& key == old(self).stash@.next()
                    &&& final(self).stash@ == old(self).stash@.put(old(self).source@[0])
                    &&& final(self).source@ == old(self).source@.drop_first()
                },
                None => {
                    &&& old(self).source@.len() == 0
                    &&& final(self).source@ == old(self).source@
                    &&& final(self).stash@ == old(self).stash@
                },
            },
    {
        proof {
            self.stash.lemma_view_wf();
        }
        match self.source.pop_front() {
            Some(value) => {
                proof {
                    assert(self.source@ =~= old(self).source@.drop_first());
                    old(self).stash@.lemma_put(value);
                }
                Some(self.stash.put(value))
            },
            None => None,
        }
    }

    /// Puts the last of the values left and yields its key.
    pub fn next_back(&mut self) -> (res: Option<Tag>)
        requires
            old(self).wf(),
        ensures
            final(self).wf(),
            *final(final(self).stash) == *final(old(self).stash),
            match res {
                Some(key) => {
                    &&& old(self).source@.len() > 0
                    &&& key == old(self).stash@.next()
                    &&& final(self).stash@ == old(self).stash@.put(old(self).source@.last())
                    &&& final(self).source@ == old(self).source@.drop_last()
                },
                None => {
                    &&& old(self).source@.len() == 0
                    &&& final(self).source@ == old(self).source@
                    &&& final(self).stash@ == old(self).stash@
                },
            },
    {
        proof {
            self.stash.lemma_view_wf();
        }
        match self.source.pop_back() {
            Some(value) => {
                proof {
                    assert(self.source@ =~= old(self).source@.drop_last());
                    old(self).stash@.lemma_put(value);
                }
                Some(self.stash.put(value))
            },
            None => None,
        }
    }

    /// The number of values left, as both bounds.
    pub fn size_hint(&self) -> (hint: (usize, Option<usize>))
        ensures
            hint.0 == self.source@.len(),
            hint.1 == Some(hint.0),
    {
        (self.source.len(), Some(self.source.len()))
    }

    /// The number of values left.
    pub fn len(&self) -> (n: usize)
        ensures
            n == self.source@.len(),
    {
        self.source.len()
    }

    /// Puts the values left, first to last, and returns their keys.
    pub fn collect(self) -> (keys: Vec<Tag>)
        requires
            self.wf(),
        ensures
            final(self.stash).wf(),
            final(self.stash)@ == old(self.stash)@.put_all(self.source@),
            keys@.len() == self.source@.len(),
            forall|i: int|
                0 <= i < keys@.len() ==> (#[trigger] keys@[i]) == old(
                    self.stash,
                )@.put_keys(self.source@)[i],
    {
        let mut this = self;
        let mut keys: Vec<Tag> = Vec::new();
        proof {
            self.stash.lemma_view_wf();
            self.stash@.lemma_put_all(self.source@);
        }
        loop
            invariant
                this.wf(),
                *final(this.stash) == *final(self.stash),
                keys@.len() + this.source@.len() == self.source@.len(),
                this.stash@.put_all(this.source@) == self.stash@.put_all(self.source@),
                self.stash@.put_keys(self.source@).len() == self.source@.len(),
                this.stash@.put_keys(this.source@).len() == this.source@.len(),
                forall|i: int|
                    0 <= i < this.source@.len() ==> this.stash@.put_keys(this.source@)[i]
                        == self.stash@.put_keys(self.source@)[keys@.len() + i],
                forall|i: int|
                    0 <= i < keys@.len() ==> (#[trigger] keys@[i]) == self.stash@.put_keys(
                        self.source@,
                    )[i],
            ensures
                this.source@.len() == 0,
                keys@.len() == self.source@.len(),
                this.stash.wf(),
                this.stash@ == self.stash@.put_all(self.source@),
                *final(this.stash) == *final(self.stash),
                forall|i: int|
                    0 <= i < keys@.len() ==> (#[trigger] keys@[i]) == self.stash@.put_keys(
                        self.source@,
                    )[i],
            decreases this.source@.len(),
        {
            let ghost before = this;
            match this.next() {
                Some(key) => {
                    proof {
                        let rest = before.source@.drop_first();
                        let after = before.stash@.put(before.source@[0]);
                        this.stash.lemma_view_wf();
                        after.lemma_put_all(rest);
                        assert forall|i: int| 0 <= i < this.source@.len() implies this.stash@.put_keys(
                            this.source@,
                        )[i] == self.stash@.put_keys(self.source@)[keys@.len() + 1 + i] by {
                            assert(before.stash@.put_keys(before.source@)[i + 1] == after.put_keys(
                                rest,
                            )[i]);
                        }
                        assert(before.stash@.put_keys(before.source@)[0] == before.stash@.next());
                    }
                    keys.push(key);
                },
                None => {
                    break ;
                },
            }
        }
        keys
    }

    /// Puts the values left, first to last, and returns their number.
    pub fn count(self) -> (n: usize)
        requires
            self.wf(),
        ensures
            final(self.stash).wf(),
            final(self.stash)@ == old(self.stash)@.put_all(self.source@),
            n == self.source@.len(),
    {
        let keys = self.collect();
        keys.len()
    }

    /// Puts the values left, first to last.
    pub fn finish(self)
        requires
            self.wf(),
        ensures
            final(self.stash).wf(),
            final(self.stash)@ == old(self.stash)@.put_all(self.source@),
    {
        let _ = self.collect();
    }
}

} // verus!
