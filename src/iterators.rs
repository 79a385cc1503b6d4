//! Cursors over sorted key-value streams.
use vstd::prelude::*;
use crate::block::Entry;
use crate::error::LsmError;
pub use crate::merge_iterator::MergeIterator;

verus! {

/// A cursor over a stream of entries.
pub trait StorageIterator {
    spec fn inv(&self) -> bool;

    /// The entries from the current one to the end of the stream.
    spec fn remaining(&self) -> Seq<Entry>;

    /// Moving this cursor on cannot fail.
    spec fn infallible(&self) -> bool;

    fn key(&self) -> (r: &[u8])
        requires
            self.inv(),
            self.remaining().len() > 0,
        ensures
            r@ == self.remaining()[0].0,
    ;

    fn value(&self) -> (r: &[u8])
        requires
            self.inv(),
            self.remaining().len() > 0,
        ensures
            r@ == self.remaining()[0].1,
    ;

    fn is_valid(&self) -> (r: bool)
        requires
            self.inv(),
        ensures
            r == (self.remaining().len() > 0),
    ;

    /// Moves past the current entry.
    fn next(&mut self) -> (r: Result<(), LsmError>)
        requires
            old(self).inv(),
        ensures
            final(self).inv(),
            old(self).infallible() ==> r is Ok && final(self).infallible(),
            r is Ok && old(self).remaining().len() > 0 ==> final(self).remaining()
                == old(self).remaining().drop_first(),
            r is Ok && old(self).remaining().len() == 0 ==> final(self).remaining().len() == 0,
    ;

    /// Number of underlying cursors.
    fn num_active_iterators(&self) -> usize
        requires
            self.inv(),
    ;
}

} // verus!
