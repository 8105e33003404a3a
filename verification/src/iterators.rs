//! The uniform cursor contract. Every source of sorted key-value entries —
//! a memtable scan, a table cursor, a merge of several sources — exposes the
//! same operations: `key`, `value`, `is_valid`, and `next`.

use vstd::prelude::*;

use crate::block::EntryView;

verus! {

/// The error kinds surfaced from the core.
#[derive(Clone, Copy, Debug, PartialEq, Eq, Structural)]
pub enum Error {
    /// A positional read past the end of a file.
    ReadOutOfRange,
    /// The bytes handed to a table open do not form a well-formed table.
    MalformedTable,
    /// An iterator was advanced after a previous advance had failed.
    IteratorErrored,
}

/// A positioned cursor over a stream of key-value entries.
///
/// The specification views a cursor as the sequence of entries it has yet to
/// emit, current entry first: `key` and `value` read the head, and a
/// successful `next` drops it. Calling `key` or `value` on an invalid
/// cursor, or advancing one, is a caller error and is excluded by contract.
pub trait StorageIterator: Sized {
    /// The remaining entries, current entry first.
    spec fn entries(&self) -> Seq<EntryView>;

    /// Well-formedness, established at creation and kept by every operation.
    spec fn inv(&self) -> bool;

    /// Whether this cursor can never fail to advance. A cursor that
    /// reports true here returns `Ok` from every admitted `next` call.
    spec fn infallible(&self) -> bool;

    /// True while the cursor points at an entry.
    fn is_valid(&self) -> (r: bool)
        requires
            self.inv(),
        ensures
            r == (self.entries().len() > 0),
    ;

    /// The key of the current entry.
    fn key(&self) -> (r: Vec<u8>)
        requires
            self.inv(),
            self.entries().len() > 0,
        ensures
            r@ == self.entries()[0].0,
    ;

    /// The value of the current entry.
    fn value(&self) -> (r: Vec<u8>)
        requires
            self.inv(),
            self.entries().len() > 0,
        ensures
            r@ == self.entries()[0].1,
    ;

    /// Advances past the current entry. On failure the cursor stays
    /// well-formed but promises nothing about its remaining entries.
    fn next(&mut self) -> (r: Result<(), Error>)
        requires
            old(self).inv(),
            old(self).entries().len() > 0,
        ensures
            final(self).inv(),
            r is Ok ==> final(self).entries() == old(self).entries().drop_first(),
            old(self).infallible() ==> r is Ok && final(self).infallible(),
    ;
}

} // verus!
