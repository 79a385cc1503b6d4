//! A cursor across the blocks of one table.
use std::sync::Arc;
use vstd::prelude::*;
use crate::block::{Entry, sorted_entries};
use crate::block_iterator::{BlockIterator, first_at_least, lemma_first_at_least};
use crate::error::LsmError;
use crate::iterators::StorageIterator;
use crate::key::{key_lt, lemma_cmp_trans};
use crate::table::{SsTable, first_key_at_least, lemma_first_key_at_least};

verus! {

/// An iterator over the contents of a table.
pub struct SsTableIterator {
    table: Arc<SsTable>,
    blk_iter: BlockIterator,
    blk_idx: usize,
}

impl SsTableIterator {
    pub closed spec fn table(&self) -> SsTable {
        *self.table
    }

    /// The entries from the current one to the end of the table.
    pub closed spec fn rest(&self) -> Seq<Entry> {
        self.blk_iter.rest() + (*self.table).entries_from(self.blk_idx + 1)
    }

    pub closed spec fn wf(&self) -> bool {
        let t = *self.table;
        &&& t.wf()
        &&& self.blk_iter.wf()
        &&& self.blk_idx < t.num_blocks()
        &&& self.blk_iter.entries() == t.block_entries(self.blk_idx as int)
        &&& self.blk_iter.rest().len() == 0 ==> t.entries_from(self.blk_idx + 1).len() == 0
        &&& is_suffix(self.rest(), t.entries())
    }

    /// Moves over blocks without entries until the current one has some or none is left.
    fn settle(&mut self)
        requires
            old(self).table().wf(),
            old(self).blk_iter.wf(),
            old(self).blk_idx < old(self).table().num_blocks(),
            old(self).blk_iter.entries() == old(self).table().block_entries(old(self).blk_idx as int),
            is_suffix(old(self).rest(), old(self).table().entries()),
        ensures
            final(self).wf(),
            final(self).table() == old(self).table(),
            final(self).rest() == old(self).rest(),
    {
        let n = self.table.num_of_blocks();
        while !self.blk_iter.is_valid() && self.blk_idx + 1 < n
            invariant
                self.table().wf(),
                self.blk_iter.wf(),
                n == self.table().num_blocks(),
                self.blk_idx < n,
                self.blk_iter.entries() == self.table().block_entries(self.blk_idx as int),
                self.table() == old(self).table(),
                self.rest() == old(self).rest(),
                is_suffix(old(self).rest(), old(self).table().entries()),
            decreases n - self.blk_idx,
        {
            let ghost before = self.rest();
            self.blk_idx = self.blk_idx + 1;
            let block = match self.table.read_block_cached(self.blk_idx) {
                Ok(b) => b,
                Err(_) => {
                    return;
                },
            };
            self.blk_iter = BlockIterator::create_and_seek_to_first(block);
            assert(self.rest() =~= before);
        }
    }

    /// Creates an iterator at the first entry of the table.
    pub fn create_and_seek_to_first(table: Arc<SsTable>) -> (r: Result<Self, LsmError>)
        requires
            table.wf(),
        ensures
            r is Ok,
            r matches Ok(it) ==> it.wf(),
            r matches Ok(it) ==> it.table() == *table,
            r matches Ok(it) ==> it.rest() == table.entries(),
    {
        proof {
            table.lemma_has_block();
        }
        let block = match table.read_block_cached(0) {
            Ok(b) => b,
            Err(e) => {
                return Err(e);
            },
        };
        let mut it = SsTableIterator {
            table,
            blk_iter: BlockIterator::create_and_seek_to_first(block),
            blk_idx: 0,
        };
        assert(it.rest() =~= it.table().entries());
        assert(it.table().entries().skip(0) =~= it.table().entries());
        it.settle();
        Ok(it)
    }

    /// Moves to the first entry of the table.
    pub fn seek_to_first(&mut self) -> (r: Result<(), LsmError>)
        requires
            old(self).wf(),
        ensures
            r is Ok,
            final(self).wf(),
            final(self).table() == old(self).table(),
            final(self).rest() == final(self).table().entries(),
    {
        let block = match self.table.read_block_cached(0) {
            Ok(b) => b,
            Err(e) => {
                return Err(e);
            },
        };
        self.blk_idx = 0;
        self.blk_iter = BlockIterator::create_and_seek_to_first(block);
        assert(self.rest() =~= self.table().entries());
        assert(self.table().entries().skip(0) =~= self.table().entries());
        self.settle();
        Ok(())
    }

    /// Creates an iterator at the first entry whose key is at least `key`.
    pub fn create_and_seek_to_key(table: Arc<SsTable>, key: &[u8]) -> (r: Result<Self, LsmError>)
        requires
            table.wf(),
        ensures
            r matches Ok(it) && it.wf() && it.table() == *table && is_suffix(
                it.rest(),
                table.entries(),
            ),
            r matches Ok(it) ==> (sorted_entries(table.entries()) && table.index_matches()
                ==> it.rest() == table.entries().skip(first_at_least(table.entries(), key@) as int)),
    {
        let mut it = match SsTableIterator::create_and_seek_to_first(table) {
            Ok(it) => it,
            Err(e) => {
                return Err(e);
            },
        };
        match it.seek_to_key(key) {
            Ok(()) => Ok(it),
            Err(e) => Err(e),
        }
    }

    /// Moves to the first entry whose key is at least `key`: into the first block whose last
    /// key is at least `key`, and on to the next block when that one holds no such key.
    pub fn seek_to_key(&mut self, key: &[u8]) -> (r: Result<(), LsmError>)
        requires
            old(self).wf(),
        ensures
            r is Ok,
            final(self).wf(),
            final(self).table() == old(self).table(),
            is_suffix(final(self).rest(), final(self).table().entries()),
            sorted_entries(final(self).table().entries()) && final(self).table().index_matches()
                ==> final(self).rest() == final(self).table().entries().skip(
                first_at_least(final(self).table().entries(), key@) as int,
            ),
    {
        let n = self.table.num_of_blocks();
        let idx = self.table.find_block_idx(key);
        let block = match self.table.read_block_cached(idx) {
            Ok(b) => b,
            Err(e) => {
                return Err(e);
            },
        };
        self.blk_idx = idx;
        self.blk_iter = BlockIterator::create_and_seek_to_key(block, key);
        let ghost p0 = self.blk_iter.position();
        let ghost t0 = self.table();
        proof {
            if sorted_entries(t0.entries()) && t0.index_matches() {
                lemma_seek_lands(t0, key@, idx as int, p0 as int, block.sorted());
            }
        }
        if !self.blk_iter.is_valid() && idx + 1 < n {
            let block = match self.table.read_block_cached(idx + 1) {
                Ok(b) => b,
                Err(e) => {
                    return Err(e);
                },
            };
            self.blk_idx = idx + 1;
            self.blk_iter = BlockIterator::create_and_seek_to_first(block);
        }
        let ghost t = self.table();
        proof {
            lemma_entries_from_suffix(t, self.blk_idx as int);
            lemma_skip_suffix(t.block_entries(self.blk_idx as int), t.entries_from(self.blk_idx + 1), self.blk_iter.position() as int);
            assert(t.entries_from(self.blk_idx as int) == t.block_entries(self.blk_idx as int) + t.entries_from(self.blk_idx + 1));
            assert(self.blk_iter.rest() == t.block_entries(self.blk_idx as int).skip(self.blk_iter.position() as int));
            lemma_suffix_trans(self.rest(), t.entries_from(self.blk_idx as int), t.entries());
        }
        self.settle();
        Ok(())
    }
}

/// Where block `j` starts among the entries of the table.
pub open spec fn block_start(t: SsTable, j: int) -> int {
    t.entries().len() - t.entries_from(j).len()
}

proof fn lemma_block_start(t: SsTable, j: int)
    requires
        0 <= j < t.num_blocks(),
    ensures
        0 <= block_start(t, j),
        block_start(t, j + 1) == block_start(t, j) + t.block_entries(j).len(),
        block_start(t, j + 1) <= t.entries().len(),
        forall|q: int|
            0 <= q < t.block_entries(j).len() ==> #[trigger] t.block_entries(j)[q] == t.entries()[block_start(t, j) + q],
        t.entries_from(j) == t.entries().skip(block_start(t, j)),
{
    lemma_entries_from_suffix(t, j);
    lemma_entries_from_suffix(t, j + 1);
    assert(t.entries_from(j) == t.block_entries(j) + t.entries_from(j + 1));
    assert forall|q: int| 0 <= q < t.block_entries(j).len() implies #[trigger] t.block_entries(j)[q]
        == t.entries()[block_start(t, j) + q] by {
        assert(t.entries_from(j)[q] == t.block_entries(j)[q]);
    }
}

/// In a sorted table whose index matches, every entry of the blocks before `b` is below `k`
/// when the index puts the last key of each of them below `k`.
proof fn lemma_prefix_below(t: SsTable, k: Seq<u8>, b: int)
    requires
        0 <= b <= t.num_blocks(),
        sorted_entries(t.entries()),
        t.index_matches(),
        forall|j: int| 0 <= j < b ==> key_lt(#[trigger] t.index_last_keys()[j], k),
    ensures
        b < t.num_blocks() ==> 0 <= block_start(t, b),
        b == t.num_blocks() ==> block_start(t, b) == t.entries().len(),
        forall|x: int| 0 <= x < block_start(t, b) ==> key_lt(#[trigger] t.entries()[x].0, k),
    decreases b,
{
    reveal(sorted_entries);
    if b == t.num_blocks() {
        assert(t.entries_from(b).len() == 0);
    }
    if b > 0 {
        lemma_prefix_below(t, k, b - 1);
        lemma_block_start(t, b - 1);
        let es = t.entries();
        let bl = t.block_entries(b - 1);
        let s = block_start(t, b - 1);
        assert forall|x: int| 0 <= x < block_start(t, b) implies key_lt(#[trigger] es[x].0, k) by {
            if x >= s {
                let q = x - s;
                assert(bl[q] == es[x]);
                assert(bl.len() > 0);
                assert(t.index_last_keys()[b - 1] == bl.last().0);
                let lastx = s + bl.len() - 1;
                assert(bl[bl.len() - 1] == es[lastx]);
                assert(key_lt(t.index_last_keys()[b - 1], k));
                if x < lastx {
                    assert(key_lt(es[x].0, es[lastx].0));
                    lemma_cmp_trans(es[x].0, es[lastx].0, k);
                }
            }
        }
    } else {
        assert(t.entries().skip(0) =~= t.entries());
        lemma_entries_from_suffix(t, 0);
    }
}

/// A seek into the block that the index picks lands on the first entry of the table that is
/// at least `k`, or past its end.
proof fn lemma_seek_lands(t: SsTable, k: Seq<u8>, b: int, p: int, block_sorted: bool)
    requires
        sorted_entries(t.entries()),
        t.index_matches(),
        0 <= b < t.num_blocks(),
        b == if first_key_at_least(t.index_last_keys(), k) < t.num_blocks() {
            first_key_at_least(t.index_last_keys(), k) as int
        } else {
            t.num_blocks() - 1
        },
        block_sorted == sorted_entries(t.block_entries(b)),
        block_sorted ==> p == first_at_least(t.block_entries(b), k),
        0 <= p <= t.block_entries(b).len(),
    ensures
        p < t.block_entries(b).len() || t.num_blocks() == b + 1,
        t.block_entries(b).skip(p) + t.entries_from(b + 1) == t.entries().skip(
            first_at_least(t.entries(), k) as int,
        ),
{
    reveal(sorted_entries);
    let es = t.entries();
    let bl = t.block_entries(b);
    let f = first_key_at_least(t.index_last_keys(), k);
    lemma_first_key_at_least(t.index_last_keys(), k);
    lemma_block_start(t, b);
    let s = block_start(t, b);
    assert(sorted_entries(bl)) by {
        assert forall|x: int, y: int| 0 <= x < y < bl.len() implies key_lt(#[trigger] bl[x].0, #[trigger] bl[y].0) by {
            assert(bl[x] == es[s + x]);
            assert(bl[y] == es[s + y]);
        }
    }
    assert forall|j: int| 0 <= j < b implies key_lt(#[trigger] t.index_last_keys()[j], k) by {
        assert(j < f);
    }
    lemma_prefix_below(t, k, b);
    // The block's own first-at-least position.
    lemma_first_at_least_props(bl, k);
    if p < bl.len() {
        assert forall|x: int| 0 <= x < s + p implies key_lt(#[trigger] es[x].0, k) by {
            if x >= s {
                assert(bl[x - s] == es[x]);
            }
        }
        assert(bl[p] == es[s + p]);
        lemma_first_at_least(es, k, s + p);
        let e1 = t.entries_from(b + 1);
        assert(es.skip(s) == bl + e1);
        assert((bl + e1).skip(p) =~= bl.skip(p) + e1);
        assert(es.skip(s + p) =~= es.skip(s).skip(p));
    } else if bl.len() == 0 {
        assert(t.num_blocks() == 1);
        assert(b == 0);
        assert(t.entries_from(1).len() == 0);
        assert(es =~= Seq::<Entry>::empty());
        assert(bl.skip(p) + t.entries_from(b + 1) =~= es.skip(first_at_least(es, k) as int));
    } else {
        // Every entry of the block is below `k`.
        let last = bl.len() - 1;
        assert(key_lt(bl[last].0, k));
        assert(t.index_last_keys()[b] == bl.last().0);
        assert(f >= t.num_blocks());
        assert(b + 1 == t.num_blocks());
        assert forall|j: int| 0 <= j < b + 1 implies key_lt(#[trigger] t.index_last_keys()[j], k) by {
            if j < b {
                assert(j < f);
            }
        }
        lemma_prefix_below(t, k, b + 1);
        assert forall|x: int| 0 <= x < es.len() implies key_lt(#[trigger] es[x].0, k) by {
            assert(x < block_start(t, b + 1));
        }
        lemma_first_at_least(es, k, es.len() as int);
        assert(t.entries_from(b + 1).len() == 0);
        assert(bl.skip(p) + t.entries_from(b + 1) =~= es.skip(es.len() as int));
    }
}

/// Entries before the first at least `k` are below it.
proof fn lemma_first_at_least_props(es: Seq<Entry>, k: Seq<u8>)
    ensures
        first_at_least(es, k) <= es.len(),
        forall|j: int| 0 <= j < first_at_least(es, k) ==> key_lt(#[trigger] es[j].0, k),
        first_at_least(es, k) < es.len() ==> !key_lt(es[first_at_least(es, k) as int].0, k),
    decreases es.len(),
{
    if es.len() > 0 && key_lt(es[0].0, k) {
        let t = es.drop_first();
        lemma_first_at_least_props(t, k);
        assert forall|j: int| 0 <= j < first_at_least(es, k) implies key_lt(#[trigger] es[j].0, k) by {
            if j > 0 {
                assert(es[j] == t[j - 1]);
            }
        }
    }
}

impl SsTableIterator {
    /// Moves to the next entry, on into the next block with entries; past the last entry the
    /// iterator becomes invalid.
    pub fn next(&mut self) -> (r: Result<(), LsmError>)
        requires
            old(self).wf(),
        ensures
            r is Ok,
            final(self).wf(),
            final(self).table() == old(self).table(),
            old(self).rest().len() > 0 ==> final(self).rest() == old(self).rest().drop_first(),
            old(self).rest().len() == 0 ==> final(self).rest().len() == 0,
    {
        let ghost r0 = self.rest();
        self.blk_iter.next();
        proof {
            if r0.len() > 0 {
                assert(self.rest() =~= r0.drop_first());
                assert(r0.drop_first() =~= r0.skip(1));
                lemma_suffix_trans(self.rest(), r0, self.table().entries());
            } else {
                assert(self.rest() =~= r0);
            }
        }
        self.settle();
        Ok(())
    }
}

/// From any position of a table with ascending keys, the entries still ahead ascend.
pub proof fn lemma_rest_ascending(it: &SsTableIterator)
    requires
        it.wf(),
        sorted_entries(it.table().entries()),
    ensures
        sorted_entries(it.rest()),
{
    reveal(sorted_entries);
    let es = it.table().entries();
    let r = it.rest();
    let p = es.len() - r.len();
    assert forall|i: int, j: int| 0 <= i < j < r.len() implies key_lt(#[trigger] r[i].0, #[trigger] r[j].0) by {
        assert(r[i] == es[p + i]);
        assert(r[j] == es[p + j]);
    }
}

/// `s` is what remains of `whole` after some prefix.
pub open spec fn is_suffix(s: Seq<Entry>, whole: Seq<Entry>) -> bool {
    s.len() <= whole.len() && s == whole.skip(whole.len() - s.len())
}

proof fn lemma_skip_suffix(a: Seq<Entry>, b: Seq<Entry>, p: int)
    requires
        0 <= p <= a.len(),
    ensures
        is_suffix(a.skip(p) + b, a + b),
{
    assert(a.skip(p) + b =~= (a + b).skip(p));
}

/// The entries of blocks `i..` end the entries of the table.
proof fn lemma_entries_from_suffix(t: SsTable, i: int)
    requires
        0 <= i <= t.num_blocks(),
    ensures
        is_suffix(t.entries_from(i), t.entries()),
    decreases i,
{
    if i > 0 {
        lemma_entries_from_suffix(t, i - 1);
        let a = t.block_entries(i - 1);
        let b = t.entries_from(i);
        assert(t.entries_from(i - 1) == a + b);
        assert(b =~= (a + b).skip(a.len() as int));
        lemma_suffix_trans(b, a + b, t.entries());
    } else {
        assert(t.entries().skip(0) =~= t.entries());
    }
}

/// A suffix of a suffix is a suffix.
proof fn lemma_suffix_trans(a: Seq<Entry>, b: Seq<Entry>, c: Seq<Entry>)
    requires
        is_suffix(a, b),
        is_suffix(b, c),
    ensures
        is_suffix(a, c),
{
    assert(a =~= c.skip(c.len() - a.len()));
}

impl StorageIterator for SsTableIterator {
    open spec fn inv(&self) -> bool {
        self.wf()
    }

    open spec fn remaining(&self) -> Seq<Entry> {
        self.rest()
    }

    open spec fn infallible(&self) -> bool {
        true
    }

    fn key(&self) -> (r: &[u8]) {
        proof {
            assert(self.blk_iter.rest().len() > 0);
        }
        self.blk_iter.key()
    }

    fn value(&self) -> (r: &[u8]) {
        proof {
            assert(self.blk_iter.rest().len() > 0);
        }
        self.blk_iter.value()
    }

    fn is_valid(&self) -> (r: bool) {
        self.blk_iter.is_valid()
    }

    fn next(&mut self) -> (r: Result<(), LsmError>) {
        SsTableIterator::next(self)
    }

    fn num_active_iterators(&self) -> usize {
        1
    }
}

} // verus!
