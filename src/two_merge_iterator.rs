//! Merges two cursors, possibly of different kinds, into one.
use vstd::prelude::*;
use crate::key::{Entry, key_lt, key_less, key_equal};
use crate::iterators::{StorageError, StorageIterator};

verus! {

/// The merge of two sorted streams in which the first wins on equal keys: the
/// entry of `b` with the same key is passed over.
pub open spec fn merge_two(a: Seq<Entry>, b: Seq<Entry>) -> Seq<Entry>
    decreases a.len() + b.len(),
{
    if a.len() == 0 {
        b
    } else if b.len() == 0 {
        a
    } else if key_lt(b[0].0, a[0].0) {
        seq![b[0]] + merge_two(a, b.drop_first())
    } else if a[0].0 == b[0].0 {
        seq![a[0]] + merge_two(a.drop_first(), b.drop_first())
    } else {
        seq![a[0]] + merge_two(a.drop_first(), b)
    }
}

/// Merges two iterators of different types into one. If the two iterators have
/// the same key, the key is produced once, with the entry from `a`.
pub struct TwoMergeIterator<A: StorageIterator, B: StorageIterator> {
    a: A,
    b: B,
}

impl<A: StorageIterator, B: StorageIterator> TwoMergeIterator<A, B> {
    /// The preferred cursor.
    pub closed spec fn first(&self) -> A {
        self.a
    }

    /// The other cursor.
    pub closed spec fn second(&self) -> B {
        self.b
    }

    /// Creates the merge of `a` (preferred) and `b`.
    pub fn create(a: A, b: B) -> (r: Result<Self, StorageError>)
        requires
            a.inv(),
            b.inv(),
        ensures
            r is Ok,
            r matches Ok(m) ==> m.inv() && m.remaining() == merge_two(a.remaining(), b.remaining())
                && m.first() == a && m.second() == b,
    {
        Ok(TwoMergeIterator { a, b })
    }

    /// Whether the current entry comes from `a`: `a` is valid and `b` is either
    /// exhausted or not below it.
    fn choose_a(&self) -> (r: bool)
        requires
            self.inv(),
        ensures
            r == (self.a.remaining().len() > 0 && (self.b.remaining().len() == 0 || !key_lt(
                self.b.remaining()[0].0,
                self.a.remaining()[0].0,
            ))),
    {
        if !self.a.is_valid() {
            return false;
        }
        if !self.b.is_valid() {
            return true;
        }
        !key_less(self.b.key(), self.a.key())
    }
}

impl<A: StorageIterator, B: StorageIterator> StorageIterator for TwoMergeIterator<A, B> {
    closed spec fn inv(&self) -> bool {
        self.a.inv() && self.b.inv()
    }

    /// Both sides are infallible.
    open spec fn infallible(&self) -> bool {
        self.first().infallible() && self.second().infallible()
    }

    closed spec fn remaining(&self) -> Seq<Entry> {
        merge_two(self.a.remaining(), self.b.remaining())
    }

    /// Returns the key of the chosen side.
    fn key(&self) -> (r: &[u8]) {
        if self.choose_a() {
            self.a.key()
        } else {
            self.b.key()
        }
    }

    /// Returns the value of the chosen side.
    fn value(&self) -> (r: &[u8]) {
        if self.choose_a() {
            self.a.value()
        } else {
            self.b.value()
        }
    }

    /// Returns whether either side stands on an entry.
    fn is_valid(&self) -> (r: bool) {
        self.a.is_valid() || self.b.is_valid()
    }

    /// Advances the chosen side; where `a` is chosen and `b` stands on the same
    /// key, `b` moves past it first.
    fn next(&mut self) -> (r: Result<(), StorageError>)
        ensures
            ({
                let ra = old(self).first().remaining();
                let rb = old(self).second().remaining();
                let chose_a = ra.len() > 0 && (rb.len() == 0 || !key_lt(rb[0].0, ra[0].0));
                let tie = chose_a && rb.len() > 0 && rb[0].0 == ra[0].0;
                &&& r is Ok ==> {
                    &&& chose_a ==> final(self).first().remaining() == ra.drop_first()
                    &&& tie ==> final(self).second().remaining() == rb.drop_first()
                    &&& chose_a && !tie ==> final(self).second() == old(self).second()
                    &&& !chose_a ==> final(self).second().remaining() == rb.drop_first()
                    &&& !chose_a ==> final(self).first() == old(self).first()
                }
                &&& r is Err ==> {
                    &&& !chose_a ==> final(self).first() == old(self).first()
                    &&& chose_a && !tie ==> final(self).second() == old(self).second()
                    &&& tie ==> final(self).first() == old(self).first() || final(self).second().remaining()
                        == rb.drop_first()
                }
            }),
    {
        let ghost ra = self.a.remaining();
        let ghost rb = self.b.remaining();
        if self.choose_a() {
            if self.b.is_valid() && key_equal(self.a.key(), self.b.key()) {
                self.b.next()?;
            }
            self.a.next()?;
        } else {
            self.b.next()?;
        }
        proof {
            let m = merge_two(ra, rb);
            assert(m.len() > 0);
            assert(self.remaining() =~= m.drop_first());
        }
        Ok(())
    }
}

} // verus!
