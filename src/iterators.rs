//! The cursor capability that every iterator of the library offers.
use vstd::prelude::*;
use crate::key::Entry;

verus! {

/// Why a read of stored data failed.
#[derive(Debug, Clone, Copy, PartialEq, Eq, Structural)]
pub enum StorageError {
    /// A block index past the end of the table's directory.
    BlockOutOfRange,
    /// Bytes that do not hold a well-formed, non-empty block.
    Corrupt,
    /// A table image too long for the 32-bit offsets of its directory.
    TableTooLarge,
}

/// A forward cursor over a sorted sequence of key-value entries.
pub trait StorageIterator {
    /// The cursor's internal invariant.
    spec fn inv(&self) -> bool;

    /// Whether every later step of the cursor is sure to succeed.
    spec fn infallible(&self) -> bool;

    /// The entries still ahead of the cursor, the current one first.
    spec fn remaining(&self) -> Seq<Entry>;

    /// Returns the key of the current entry, or an empty key when exhausted.
    fn key(&self) -> (r: &[u8])
        requires
            self.inv(),
        ensures
            self.remaining().len() > 0 ==> r@ == self.remaining()[0].0,
            self.remaining().len() == 0 ==> r@.len() == 0;

    /// Returns the value of the current entry.
    fn value(&self) -> (r: &[u8])
        requires
            self.inv(),
        ensures
            self.remaining().len() > 0 ==> r@ == self.remaining()[0].1,
            self.remaining().len() == 0 ==> r@.len() == 0;

    /// Returns whether the cursor stands on an entry.
    fn is_valid(&self) -> (r: bool)
        requires
            self.inv(),
        ensures
            r == (self.remaining().len() > 0);

    /// Moves to the next entry.
    fn next(&mut self) -> (r: Result<(), StorageError>)
        requires
            old(self).inv(),
            old(self).remaining().len() > 0,
        ensures
            final(self).inv(),
            r is Ok ==> final(self).remaining() == old(self).remaining().drop_first(),
            old(self).infallible() ==> r is Ok && final(self).infallible();
}

} // verus!
