//! The engine-facing iterator stack: a thin wrapper that exposes the merged
//! memtable stream, and a fuse that makes a failed cursor absorbing — after
//! one failed advance every further advance fails and the cursor reads as
//! invalid forever.

use vstd::prelude::*;

use crate::block::EntryView;
use crate::iterators::{Error, StorageIterator};
use crate::mem_table::MemTableIterator;
use crate::merge_iterator::MergeIterator;

verus! {

/// The engine-facing iterator over the merged memtable streams.
pub struct LsmIterator {
    /// The merge this iterator presents.
    pub inner: MergeIterator<MemTableIterator>,
}

impl LsmIterator {
    /// Wraps a merge iterator for the engine.
    pub fn new(iter: MergeIterator<MemTableIterator>) -> (r: Result<LsmIterator, Error>)
        requires
            iter.merge_inv(),
        ensures
            r is Ok,
            r matches Ok(it) ==> it.inv() && it.entries() == iter.entries(),
    {
        Ok(LsmIterator { inner: iter })
    }
}

impl StorageIterator for LsmIterator {
    open spec fn entries(&self) -> Seq<EntryView> {
        self.inner.entries()
    }

    open spec fn inv(&self) -> bool {
        self.inner.inv()
    }

    open spec fn infallible(&self) -> bool {
        self.inner.infallible()
    }

    fn is_valid(&self) -> (r: bool) {
        self.inner.is_valid()
    }

    fn key(&self) -> (r: Vec<u8>) {
        self.inner.key()
    }

    fn value(&self) -> (r: Vec<u8>) {
        self.inner.value()
    }

    fn next(&mut self) -> (r: Result<(), Error>) {
        self.inner.next()
    }
}

/// Wraps an iterator so that an advance failure is absorbing: after one
/// failed `next` the wrapper reads as invalid and every further `next`
/// fails. Reading the key or value of an invalid wrapper is a caller error
/// and is excluded by contract.
pub struct FusedIterator<I: StorageIterator> {
    /// The wrapped cursor.
    pub iter: I,
    /// Latched once an advance has failed.
    pub has_errored: bool,
}

impl<I: StorageIterator> FusedIterator<I> {
    /// The entries still to emit: none once an advance has failed.
    pub open spec fn entries(&self) -> Seq<EntryView> {
        if self.has_errored {
            Seq::empty()
        } else {
            self.iter.entries()
        }
    }

    /// Well-formedness of the wrapped cursor.
    pub open spec fn inv(&self) -> bool {
        self.iter.inv()
    }

    /// Wraps a cursor; nothing has failed yet.
    pub fn new(iter: I) -> (r: FusedIterator<I>)
        requires
            iter.inv(),
        ensures
            r.inv(),
            !r.has_errored,
            r.entries() == iter.entries(),
    {
        FusedIterator { iter, has_errored: false }
    }

    /// True while no advance has failed and the wrapped cursor is valid.
    pub fn is_valid(&self) -> (r: bool)
        requires
            self.inv(),
        ensures
            r == (self.entries().len() > 0),
    {
        !self.has_errored && self.iter.is_valid()
    }

    /// The key of the current entry.
    pub fn key(&self) -> (r: Vec<u8>)
        requires
            self.inv(),
            self.entries().len() > 0,
        ensures
            r@ == self.entries()[0].0,
    {
        self.iter.key()
    }

    /// The value of the current entry.
    pub fn value(&self) -> (r: Vec<u8>)
        requires
            self.inv(),
            self.entries().len() > 0,
        ensures
            r@ == self.entries()[0].1,
    {
        self.iter.value()
    }

    /// Advances the wrapped cursor. Once an advance has failed, every later
    /// call fails and the wrapper stays invalid; advancing an exhausted but
    /// unfailed wrapper does nothing and succeeds.
    pub fn next(&mut self) -> (r: Result<(), Error>)
        requires
            old(self).inv(),
        ensures
            final(self).inv(),
            old(self).has_errored ==> r is Err && *final(self) == *old(self),
            !old(self).has_errored && old(self).entries().len() == 0 ==> r is Ok && *final(self)
                == *old(self),
            !old(self).has_errored && old(self).iter.infallible() ==> r is Ok
                && !final(self).has_errored && final(self).iter.infallible(),
            r is Err ==> final(self).has_errored && final(self).entries().len() == 0,
            r is Ok ==> !final(self).has_errored && final(self).entries() == if old(
                self,
            ).entries().len() > 0 {
                old(self).entries().drop_first()
            } else {
                old(self).entries()
            },
    {
        if self.has_errored {
            return Err(Error::IteratorErrored);
        }
        if self.iter.is_valid() {
            match self.iter.next() {
                Ok(()) => {},
                Err(e) => {
                    proof {
                        if old(self).iter.infallible() {
                            assert(false);
                        }
                    }
                    self.has_errored = true;
                    return Err(e);
                },
            }
        }
        Ok(())
    }
}

} // verus!
