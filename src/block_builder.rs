//! Accumulates entries into one block under a byte budget.
use vstd::prelude::*;
use crate::block::{
    Block, Entry, entries_of, entry_bytes, layout_ok, lemma_layout_push, sorted_entries,
};
use crate::codec::{put_u16, put_bytes, copy_range};
use crate::key::{key_lt, lemma_cmp_trans};

verus! {

/// Builds a block.
pub struct BlockBuilder {
    offsets: Vec<u16>,
    data: Vec<u8>,
    block_size: usize,
    first_key: Vec<u8>,
    last_key: Vec<u8>,
}

/// The finalized size of a block with `data_len` bytes of entries and `n` entries.
pub open spec fn block_size_estimate(data_len: nat, n: nat) -> nat {
    data_len + 2 * n + 2
}

/// Appending an entry whose key is above the last keeps the keys ascending.
pub proof fn lemma_sorted_push(es: Seq<Entry>, e: Entry)
    requires
        sorted_entries(es),
        es.len() > 0 ==> key_lt(es.last().0, e.0),
    ensures
        sorted_entries(es.push(e)),
{
    reveal(sorted_entries);
    let es2 = es.push(e);
    assert forall|i: int, j: int| 0 <= i < j < es2.len() implies key_lt(
        #[trigger] es2[i].0,
        #[trigger] es2[j].0,
    ) by {
        if j == es.len() {
            if i < j - 1 {
                assert(es[i] == es2[i]);
                assert(sorted_entries(es));
                assert(key_lt(es[i].0, es[j - 1].0));
                lemma_cmp_trans(es[i].0, es[j - 1].0, e.0);
            }
        } else {
            assert(es[i] == es2[i]);
            assert(es[j] == es2[j]);
        }
    }
}

impl BlockBuilder {
    /// The entries added so far.
    pub closed spec fn entries(&self) -> Seq<Entry> {
        entries_of(self.data@, self.offsets@)
    }

    /// The byte budget.
    pub closed spec fn target(&self) -> nat {
        self.block_size as nat
    }

    /// Bytes taken by the encoded entries.
    pub closed spec fn data_len(&self) -> nat {
        self.data@.len()
    }

    /// Size of the block that `build` would return now.
    pub open spec fn estimate(&self) -> nat {
        block_size_estimate(self.data_len(), self.entries().len())
    }

    pub closed spec fn wf(&self) -> bool {
        &&& layout_ok(self.data@, self.offsets@)
        &&& sorted_entries(self.entries())
        &&& self.block_size <= 0x1_0000
        &&& self.data@.len() <= 0x3_0000
        &&& self.offsets@.len() <= 1 || self.estimate() < self.target()
        &&& self.offsets@.len() > 0 ==> self.first_key@ == self.entries()[0].0 && self.last_key@
            == self.entries().last().0
    }

    /// Creates an empty builder with the given byte budget; offsets are 16 bits wide, which
    /// bounds the budget.
    pub fn new(block_size: usize) -> (r: Self)
        requires
            block_size <= 0x1_0000,
        ensures
            r.wf(),
            r.entries() == Seq::<Entry>::empty(),
            r.data_len() == 0,
            r.target() == block_size,
    {
        let r = BlockBuilder {
            offsets: Vec::new(),
            data: Vec::new(),
            block_size,
            first_key: Vec::new(),
            last_key: Vec::new(),
        };
        assert(r.entries() =~= Seq::<Entry>::empty());
        proof {
            reveal(layout_ok);
            reveal(sorted_entries);
        }
        r
    }

    /// Adds an entry; returns false, leaving the builder as it was, when the builder holds
    /// entries and the finalized block would reach the budget with this one.
    pub fn add(&mut self, key: &[u8], value: &[u8]) -> (r: bool)
        requires
            old(self).wf(),
            key@.len() < 0x1_0000,
            value@.len() < 0x1_0000,
            old(self).entries().len() > 0 ==> key_lt(old(self).entries().last().0, key@),
        ensures
            final(self).wf(),
            final(self).target() == old(self).target(),
            r == (old(self).entries().len() == 0 || block_size_estimate(
                old(self).data_len() + entry_bytes(key@, value@).len(),
                old(self).entries().len() + 1,
            ) < old(self).target()),
            r ==> final(self).entries() == old(self).entries().push((key@, value@)),
            !r ==> final(self).entries() == old(self).entries(),
            r ==> final(self).data_len() == old(self).data_len() + entry_bytes(key@, value@).len(),
            !r ==> final(self).data_len() == old(self).data_len(),
            r ==> final(self).estimate() < final(self).target() || final(self).entries().len() == 1,
    {
        let n = self.offsets.len();
        let entry_len = 4 + key.len() + value.len();
        if n > 0 {
            if self.data.len() + entry_len + 2 * (n + 1) + 2 >= self.block_size {
                return false;
            }
        }
        proof {
            reveal(layout_ok);
        }
        let ghost d = self.data@;
        let ghost offs = self.offsets@;
        let ghost old_entries = self.entries();
        let at = self.data.len() as u16;
        put_u16(&mut self.data, key.len() as u16);
        put_bytes(&mut self.data, key);
        put_u16(&mut self.data, value.len() as u16);
        put_bytes(&mut self.data, value);
        self.offsets.push(at);
        proof {
            assert(self.data@ =~= d + entry_bytes(key@, value@));
            lemma_layout_push(d, offs, key@, value@);
            lemma_sorted_push(old_entries, (key@, value@));
        }
        if n == 0 {
            self.first_key = copy_range(key, 0, key.len());
            assert(key@.subrange(0, key@.len() as int) =~= key@);
        }
        self.last_key = copy_range(key, 0, key.len());
        assert(key@.subrange(0, key@.len() as int) =~= key@);
        true
    }

    /// No entry has been added.
    pub fn is_empty(&self) -> (r: bool)
        requires
            self.wf(),
        ensures
            r == (self.entries().len() == 0),
    {
        self.offsets.len() == 0
    }

    /// The key of the first entry.
    pub fn first_key(&self) -> (r: Vec<u8>)
        requires
            self.wf(),
            self.entries().len() > 0,
        ensures
            r@ == self.entries()[0].0,
    {
        let r = copy_range(self.first_key.as_slice(), 0, self.first_key.len());
        assert(self.first_key@.subrange(0, self.first_key@.len() as int) =~= self.first_key@);
        r
    }

    /// The key of the entry added last.
    pub fn last_key(&self) -> (r: Vec<u8>)
        requires
            self.wf(),
            self.entries().len() > 0,
        ensures
            r@ == self.entries().last().0,
    {
        let r = copy_range(self.last_key.as_slice(), 0, self.last_key.len());
        assert(self.last_key@.subrange(0, self.last_key@.len() as int) =~= self.last_key@);
        r
    }

    /// Finalizes the block and leaves the builder empty, with the same budget.
    pub fn build(&mut self) -> (r: Block)
        requires
            old(self).wf(),
        ensures
            r.wf(),
            r.sorted(),
            r.entries() == old(self).entries(),
            r.encoding().len() == old(self).estimate(),
            final(self).wf(),
            final(self).entries() == Seq::<Entry>::empty(),
            final(self).data_len() == 0,
            final(self).target() == old(self).target(),
    {
        let mut data: Vec<u8> = Vec::new();
        let mut offsets: Vec<u16> = Vec::new();
        std::mem::swap(&mut data, &mut self.data);
        std::mem::swap(&mut offsets, &mut self.offsets);
        self.first_key = Vec::new();
        self.last_key = Vec::new();
        assert(self.entries() =~= Seq::<Entry>::empty());
        proof {
            reveal(layout_ok);
            reveal(sorted_entries);
        }
        let b = Block { data, offsets };
        proof {
            crate::block::lemma_offsets_len(b.offsets@);
        }
        b
    }
}

} // verus!
