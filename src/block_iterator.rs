//! A cursor over the entries of one block.
use std::sync::Arc;
use vstd::prelude::*;
use vstd::slice::slice_subrange;
use crate::block::{Block, Entry, layout_ok, sorted_entries};
use crate::codec::{copy_range, get_u16};
use crate::key::{compare_keys, key_lt, lemma_cmp_trans};

verus! {

/// The key and the bounds of the value of the `i`-th entry.
fn entry_parts(block: &Block, i: usize) -> (r: (&[u8], usize, usize))
    requires
        block.wf(),
        i < block.len(),
    ensures
        r.0@ == block.entries()[i as int].0,
        r.1 <= r.2 <= block.data@.len(),
        block.data@.subrange(r.1 as int, r.2 as int) == block.entries()[i as int].1,
{
    proof {
        reveal(layout_ok);
    }
    let d = block.data.as_slice();
    let off = block.offsets[i] as usize;
    assert(crate::block::entry_fits(d@, off as int));
    let klen = get_u16(d, off) as usize;
    let vlen = get_u16(d, off + 2 + klen) as usize;
    let key = slice_subrange(d, off + 2, off + 2 + klen);
    (key, off + 4 + klen, off + 4 + klen + vlen)
}

/// Iterates on a block.
pub struct BlockIterator {
    block: Arc<Block>,
    key: Vec<u8>,
    value_range: (usize, usize),
    idx: usize,
}

impl BlockIterator {
    /// The entries of the block.
    pub closed spec fn entries(&self) -> Seq<Entry> {
        (*self.block).entries()
    }

    /// The keys of the block strictly ascend.
    pub closed spec fn block_sorted(&self) -> bool {
        (*self.block).sorted()
    }

    /// Index of the current entry; the entry count when the iterator is invalid.
    pub closed spec fn position(&self) -> nat {
        self.idx as nat
    }

    /// The entries from the current one to the end.
    pub open spec fn rest(&self) -> Seq<Entry> {
        self.entries().skip(self.position() as int)
    }

    pub closed spec fn wf(&self) -> bool {
        let b = *self.block;
        &&& b.wf()
        &&& self.idx <= b.len()
        &&& self.idx < b.len() ==> {
            &&& self.key@ == b.entries()[self.idx as int].0
            &&& self.value_range.0 <= self.value_range.1 <= b.data@.len()
            &&& b.data@.subrange(self.value_range.0 as int, self.value_range.1 as int)
                == b.entries()[self.idx as int].1
        }
    }

    fn new(block: Arc<Block>) -> (r: Self)
        requires
            block.wf(),
        ensures
            r.wf(),
            r.entries() == block.entries(),
            r.block_sorted() == block.sorted(),
            r.position() == block.len(),
    {
        let n = block.offsets.len();
        BlockIterator { block, key: Vec::new(), value_range: (0, 0), idx: n }
    }

    /// Moves to the `i`-th entry, or past the end when `i` is the entry count.
    fn move_to(&mut self, i: usize)
        requires
            old(self).wf(),
            i <= old(self).entries().len(),
        ensures
            final(self).wf(),
            final(self).entries() == old(self).entries(),
            final(self).block_sorted() == old(self).block_sorted(),
            final(self).position() == i,
    {
        if i < self.block.offsets.len() {
            let (k, a, b) = entry_parts(&self.block, i);
            self.key = copy_range(k, 0, k.len());
            assert(k@.subrange(0, k@.len() as int) =~= k@);
            self.value_range = (a, b);
        }
        self.idx = i;
    }

    /// Creates a block iterator and seeks to the first entry.
    pub fn create_and_seek_to_first(block: Arc<Block>) -> (r: Self)
        requires
            block.wf(),
        ensures
            r.wf(),
            r.entries() == block.entries(),
            r.block_sorted() == block.sorted(),
            r.position() == 0,
            r.rest() == block.entries(),
    {
        let mut it = BlockIterator::new(block);
        it.seek_to_first();
        assert(it.rest() =~= it.entries());
        it
    }

    /// Creates a block iterator and seeks to the first key that is at least `key`.
    pub fn create_and_seek_to_key(block: Arc<Block>, key: &[u8]) -> (r: Self)
        requires
            block.wf(),
        ensures
            r.wf(),
            r.entries() == block.entries(),
            r.block_sorted() == block.sorted(),
            r.position() <= block.len(),
            block.sorted() ==> r.position() == first_at_least(block.entries(), key@),
    {
        let mut it = BlockIterator::new(block);
        it.seek_to_key(key);
        it
    }

    /// The key of the current entry.
    pub fn key(&self) -> (r: &[u8])
        requires
            self.wf(),
            self.rest().len() > 0,
        ensures
            r@ == self.rest()[0].0,
    {
        self.key.as_slice()
    }

    /// The value of the current entry.
    pub fn value(&self) -> (r: &[u8])
        requires
            self.wf(),
            self.rest().len() > 0,
        ensures
            r@ == self.rest()[0].1,
    {
        slice_subrange(self.block.data.as_slice(), self.value_range.0, self.value_range.1)
    }

    /// The iterator is on an entry.
    pub fn is_valid(&self) -> (r: bool)
        requires
            self.wf(),
        ensures
            r == (self.position() < self.entries().len()),
            r == (self.rest().len() > 0),
    {
        self.idx < self.block.offsets.len()
    }

    /// Moves to the first entry.
    pub fn seek_to_first(&mut self)
        requires
            old(self).wf(),
        ensures
            final(self).wf(),
            final(self).entries() == old(self).entries(),
            final(self).block_sorted() == old(self).block_sorted(),
            final(self).position() == 0,
    {
        self.move_to(0);
    }

    /// Moves to the next entry; past the last one the iterator becomes invalid.
    pub fn next(&mut self)
        requires
            old(self).wf(),
        ensures
            final(self).wf(),
            final(self).entries() == old(self).entries(),
            final(self).block_sorted() == old(self).block_sorted(),
            old(self).rest().len() > 0 ==> final(self).rest() == old(self).rest().drop_first(),
            old(self).rest().len() == 0 ==> final(self).rest().len() == 0,
            final(self).position() == if old(self).position() < old(self).entries().len() {
                old(self).position() + 1
            } else {
                old(self).position()
            },
    {
        if self.idx < self.block.offsets.len() {
            self.move_to(self.idx + 1);
            assert(self.rest() =~= old(self).rest().drop_first());
        }
    }

    /// Moves to the first entry whose key is at least `key`, by binary search over the
    /// offsets; invalid when there is none.
    pub fn seek_to_key(&mut self, key: &[u8])
        requires
            old(self).wf(),
        ensures
            final(self).wf(),
            final(self).entries() == old(self).entries(),
            final(self).block_sorted() == old(self).block_sorted(),
            final(self).position() <= final(self).entries().len(),
            final(self).block_sorted() ==> final(self).position() == first_at_least(
                final(self).entries(),
                key@,
            ),
    {
        let n = self.block.offsets.len();
        let ghost es = self.entries();
        let mut lo: usize = 0;
        let mut hi: usize = n;
        while lo < hi
            invariant
                self.wf(),
                self == old(self),
                es == self.entries(),
                n == es.len(),
                lo <= hi <= n,
                self.block_sorted() ==> forall|i: int| 0 <= i < lo ==> key_lt(#[trigger] es[i].0, key@),
                self.block_sorted() ==> forall|i: int|
                    hi <= i < n ==> !key_lt(#[trigger] es[i].0, key@),
            decreases hi - lo,
        {
            let mid = lo + (hi - lo) / 2;
            let (k, _, _) = entry_parts(&self.block, mid);
            let c = compare_keys(k, key);
            proof {
                reveal(sorted_entries);
            }
            if c < 0 {
                proof {
                    if self.block_sorted() {
                        assert forall|i: int| 0 <= i < mid + 1 implies key_lt(#[trigger] es[i].0, key@) by {
                            if i < mid {
                                assert(key_lt(es[i].0, es[mid as int].0));
                                lemma_cmp_trans(es[i].0, es[mid as int].0, key@);
                            }
                        }
                    }
                }
                lo = mid + 1;
            } else {
                proof {
                    if self.block_sorted() {
                        assert forall|i: int| mid <= i < n implies !key_lt(#[trigger] es[i].0, key@) by {
                            if i > mid && key_lt(es[i].0, key@) {
                                assert(key_lt(es[mid as int].0, es[i].0));
                                lemma_cmp_trans(es[mid as int].0, es[i].0, key@);
                            }
                        }
                    }
                }
                hi = mid;
            }
        }
        self.move_to(lo);
        proof {
            if self.block_sorted() {
                lemma_first_at_least(es, key@, lo as int);
            }
        }
    }
}

/// From any position of a block with ascending keys, the entries still ahead ascend.
pub proof fn lemma_rest_ascending(it: &BlockIterator)
    requires
        it.wf(),
        it.block_sorted(),
    ensures
        sorted_entries(it.rest()),
{
    reveal(sorted_entries);
    let es = it.entries();
    let r = it.rest();
    assert forall|i: int, j: int| 0 <= i < j < r.len() implies key_lt(#[trigger] r[i].0, #[trigger] r[j].0) by {
        assert(r[i] == es[it.position() + i]);
        assert(r[j] == es[it.position() + j]);
    }
}

/// Index of the first entry whose key is at least `k` in entries sorted by key; their count
/// when there is none.
pub open spec fn first_at_least(es: Seq<Entry>, k: Seq<u8>) -> nat
    decreases es.len(),
{
    if es.len() == 0 {
        0
    } else if !key_lt(es[0].0, k) {
        0
    } else {
        1 + first_at_least(es.drop_first(), k)
    }
}

/// The index below which keys are less than `k`, and from which they are not, is the first
/// at least `k`.
pub proof fn lemma_first_at_least(es: Seq<Entry>, k: Seq<u8>, p: int)
    requires
        0 <= p <= es.len(),
        forall|i: int| 0 <= i < p ==> key_lt(#[trigger] es[i].0, k),
        p < es.len() ==> !key_lt(es[p].0, k),
    ensures
        first_at_least(es, k) == p,
    decreases es.len(),
{
    if es.len() > 0 && p > 0 {
        let t = es.drop_first();
        assert forall|i: int| 0 <= i < p - 1 implies key_lt(#[trigger] t[i].0, k) by {
            assert(t[i] == es[i + 1]);
        }
        if p - 1 < t.len() {
            assert(t[p - 1] == es[p]);
        }
        lemma_first_at_least(t, k, p - 1);
    }
}

} // verus!

verus! {

impl crate::iterators::StorageIterator for BlockIterator {
    open spec fn inv(&self) -> bool {
        self.wf()
    }

    open spec fn remaining(&self) -> Seq<Entry> {
        self.rest()
    }

    open spec fn infallible(&self) -> bool {
        true
    }

    fn key(&self) -> (r: &[u8]) {
        BlockIterator::key(self)
    }

    fn value(&self) -> (r: &[u8]) {
        BlockIterator::value(self)
    }

    fn is_valid(&self) -> (r: bool) {
        BlockIterator::is_valid(self)
    }

    fn next(&mut self) -> (r: Result<(), crate::error::LsmError>) {
        BlockIterator::next(self);
        Ok(())
    }

    fn num_active_iterators(&self) -> usize {
        1
    }
}

} // verus!
