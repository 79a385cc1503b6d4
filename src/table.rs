//! Sorted string tables: data blocks, a block-meta index, a Bloom filter and a footer.
use std::sync::Arc;
use vstd::prelude::*;
use vstd::slice::slice_subrange;
use crate::block::{Block, Entry, block_bytes_ok, decoded_data, decoded_offsets, entries_of};
use crate::bloom::{Bloom, bloom_bytes_ok};
use crate::codec::{copy_range, get_u32, read_u32};
use crate::error::LsmError;
use crate::key::{compare_keys, key_lt};
use crate::meta::{MetaView, metas_view, parse_metas};
pub use crate::meta::BlockMeta;
pub use crate::table_builder::SsTableBuilder;
pub use crate::table_iterator::SsTableIterator;

verus! {

/// The 64-bit fingerprint of a key, as farmhash computes it.
pub uninterp spec fn farmhash64_of(key: Seq<u8>) -> u64;

/// Relies on farmhash::fingerprint64: a hash of the bytes alone, stable across processes and
/// platforms. (Its arithmetic wraps throughout, so no key makes it overflow.)
#[verifier::external_body]
fn fingerprint64(key: &[u8]) -> (r: u64)
    ensures
        r == farmhash64_of(key@),
{
    farmhash::fingerprint64(key)
}

/// The 32-bit fingerprint of a key that the Bloom filter is built from: the two halves of its
/// 64-bit farmhash fingerprint, xored.
pub open spec fn fingerprint_of(key: Seq<u8>) -> u32 {
    let h = farmhash64_of(key);
    (h ^ (h >> 32u64)) as u32
}

/// The 32-bit fingerprint of a key.
pub fn key_fingerprint(key: &[u8]) -> (r: u32)
    ensures
        r == fingerprint_of(key@),
{
    let h = fingerprint64(key);
    (h ^ (h >> 32u64)) as u32
}

/// Offset of the Bloom filter: the last four bytes.
pub open spec fn bloom_offset_of(f: Seq<u8>) -> int {
    read_u32(f, f.len() - 4) as int
}

/// Offset of the meta index: the four bytes before the Bloom filter.
pub open spec fn meta_offset_of(f: Seq<u8>) -> int {
    read_u32(f, bloom_offset_of(f) - 4) as int
}

/// The two offsets of the footer point inside the file, in order, and the filter decodes.
pub open spec fn footer_ok(f: Seq<u8>) -> bool {
    &&& f.len() >= 8
    &&& 4 <= bloom_offset_of(f) <= f.len() - 4
    &&& meta_offset_of(f) <= bloom_offset_of(f) - 4
    &&& bloom_bytes_ok(f.subrange(bloom_offset_of(f), f.len() - 4))
}

pub open spec fn meta_region(f: Seq<u8>) -> Seq<u8> {
    f.subrange(meta_offset_of(f), bloom_offset_of(f) - 4)
}

/// The meta index holds at least one record and nothing else.
pub open spec fn metas_ok(f: Seq<u8>) -> bool {
    parse_metas(meta_region(f)) matches Some(ms) && ms.len() > 0
}

pub open spec fn file_metas(f: Seq<u8>) -> Seq<MetaView> {
    parse_metas(meta_region(f))->Some_0
}

/// Where block `i` ends: at the next block, or at the meta index.
pub open spec fn region_end(ms: Seq<MetaView>, mo: int, i: int) -> int {
    if i + 1 < ms.len() {
        ms[i + 1].0 as int
    } else {
        mo
    }
}

pub open spec fn region(f: Seq<u8>, ms: Seq<MetaView>, mo: int, i: int) -> Seq<u8> {
    f.subrange(ms[i].0 as int, region_end(ms, mo, i))
}

/// Each block lies before the meta index, the blocks in order.
pub open spec fn bounds_ok(ms: Seq<MetaView>, mo: int) -> bool {
    forall|i: int| 0 <= i < ms.len() ==> #[trigger] ms[i].0 <= region_end(ms, mo, i) <= mo
}

/// Each block region decodes.
pub open spec fn blocks_ok(f: Seq<u8>, ms: Seq<MetaView>, mo: int) -> bool {
    forall|i: int| 0 <= i < ms.len() ==> block_bytes_ok(#[trigger] region(f, ms, mo, i))
}

/// `f` is a well-formed table file.
pub open spec fn file_ok(f: Seq<u8>) -> bool {
    &&& footer_ok(f)
    &&& metas_ok(f)
    &&& bounds_ok(file_metas(f), meta_offset_of(f))
    &&& blocks_ok(f, file_metas(f), meta_offset_of(f))
}

/// The entries of the encoded block `r`.
pub open spec fn region_entries(r: Seq<u8>) -> Seq<Entry> {
    entries_of(decoded_data(r), decoded_offsets(r))
}

/// The entries of blocks `i..` of a table file, in order.
pub open spec fn entries_from(f: Seq<u8>, ms: Seq<MetaView>, mo: int, i: int) -> Seq<Entry>
    decreases ms.len() - i,
{
    if i < 0 || i >= ms.len() {
        Seq::empty()
    } else {
        region_entries(region(f, ms, mo, i)) + entries_from(f, ms, mo, i + 1)
    }
}

/// The index of the file names the last key of each block, and only a file of one block has
/// a block without entries.
pub open spec fn file_index_matches(f: Seq<u8>) -> bool {
    let ms = file_metas(f);
    forall|i: int|
        0 <= i < ms.len() ==> {
            let es = #[trigger] region_entries(region(f, ms, meta_offset_of(f), i));
            &&& es.len() > 0 ==> ms[i].2 == es.last().0
            &&& es.len() == 0 ==> ms.len() == 1
        }
}

/// Every entry of a well-formed table file.
pub open spec fn file_entries(f: Seq<u8>) -> Seq<Entry> {
    entries_from(f, file_metas(f), meta_offset_of(f), 0)
}

/// Keys before the first at least `k` are below it.
pub proof fn lemma_first_key_at_least(keys: Seq<Seq<u8>>, k: Seq<u8>)
    ensures
        first_key_at_least(keys, k) <= keys.len(),
        forall|j: int| 0 <= j < first_key_at_least(keys, k) ==> key_lt(#[trigger] keys[j], k),
        first_key_at_least(keys, k) < keys.len() ==> !key_lt(keys[first_key_at_least(keys, k) as int], k),
    decreases keys.len(),
{
    if keys.len() > 0 && key_lt(keys[0], k) {
        let t = keys.drop_first();
        lemma_first_key_at_least(t, k);
        assert forall|j: int| 0 <= j < first_key_at_least(keys, k) implies key_lt(#[trigger] keys[j], k) by {
            if j > 0 {
                assert(keys[j] == t[j - 1]);
            }
        }
    }
}

/// Index of the first key in `keys` that is at least `k`; their count when there is none.
pub open spec fn first_key_at_least(keys: Seq<Seq<u8>>, k: Seq<u8>) -> nat
    decreases keys.len(),
{
    if keys.len() == 0 {
        0
    } else if !key_lt(keys[0], k) {
        0
    } else {
        1 + first_key_at_least(keys.drop_first(), k)
    }
}

/// Decides `bounds_ok`.
fn check_bounds(block_meta: &[BlockMeta], meta_offset: usize) -> (r: bool)
    ensures
        r == bounds_ok(metas_view(block_meta@), meta_offset as int),
{
    let ghost ms = metas_view(block_meta@);
    let n = block_meta.len();
    let mut i: usize = 0;
    while i < n
        invariant
            n == block_meta@.len(),
            ms == metas_view(block_meta@),
            i <= n,
            forall|j: int|
                0 <= j < i ==> #[trigger] ms[j].0 <= region_end(ms, meta_offset as int, j)
                    <= meta_offset,
        decreases n - i,
    {
        let end = if i + 1 < n {
            block_meta[i + 1].offset
        } else {
            meta_offset
        };
        assert(end == region_end(ms, meta_offset as int, i as int));
        if block_meta[i].offset > end || end > meta_offset {
            assert(!(ms[i as int].0 <= region_end(ms, meta_offset as int, i as int) <= meta_offset));
            return false;
        }
        i = i + 1;
    }
    true
}

/// Decides `blocks_ok`.
fn check_blocks(file: &[u8], block_meta: &[BlockMeta], meta_offset: usize) -> (r: bool)
    requires
        bounds_ok(metas_view(block_meta@), meta_offset as int),
        meta_offset <= file@.len(),
    ensures
        r == blocks_ok(file@, metas_view(block_meta@), meta_offset as int),
{
    let ghost ms = metas_view(block_meta@);
    let n = block_meta.len();
    let mut i: usize = 0;
    while i < n
        invariant
            n == block_meta@.len(),
            ms == metas_view(block_meta@),
            i <= n,
            meta_offset <= file@.len(),
            bounds_ok(ms, meta_offset as int),
            forall|j: int| 0 <= j < i ==> block_bytes_ok(#[trigger] region(file@, ms, meta_offset as int, j)),
        decreases n - i,
    {
        let end = if i + 1 < n {
            block_meta[i + 1].offset
        } else {
            meta_offset
        };
        assert(end == region_end(ms, meta_offset as int, i as int));
        assert(ms[i as int].0 <= region_end(ms, meta_offset as int, i as int) <= meta_offset);
        let start = block_meta[i].offset;
        let bytes = slice_subrange(file, start, end);
        assert(bytes@ == region(file@, ms, meta_offset as int, i as int));
        match Block::decode(bytes) {
            Ok(_) => {},
            Err(_) => {
                assert(!block_bytes_ok(region(file@, ms, meta_offset as int, i as int)));
                return false;
            },
        }
        i = i + 1;
    }
    true
}

/// An immutable sorted string table, held as the image of its file.
pub struct SsTable {
    file: Vec<u8>,
    block_meta: Vec<BlockMeta>,
    block_meta_offset: usize,
    id: usize,
    first_key: Vec<u8>,
    last_key: Vec<u8>,
    size: u64,
    bloom: Option<Bloom>,
    max_ts: u64,
}

impl SsTable {
    /// The bytes of the file.
    pub closed spec fn file_view(&self) -> Seq<u8> {
        self.file@
    }

    pub closed spec fn metas(&self) -> Seq<MetaView> {
        metas_view(self.block_meta@)
    }

    pub closed spec fn meta_offset(&self) -> int {
        self.block_meta_offset as int
    }

    /// The smallest key, as the table records it.
    pub closed spec fn first_key_view(&self) -> Seq<u8> {
        self.first_key@
    }

    /// The largest key, as the table records it.
    pub closed spec fn last_key_view(&self) -> Seq<u8> {
        self.last_key@
    }

    /// Size of the file in bytes, as the table records it.
    pub closed spec fn size_view(&self) -> nat {
        self.size as nat
    }

    /// A well-formed table records the keys at the ends of its index and the size of its file.
    pub proof fn lemma_recorded_fields(&self)
        requires
            self.wf(),
        ensures
            self.first_key_view() == self.metas()[0].1,
            self.last_key_view() == self.metas().last().2,
            self.size_view() == self.file_view().len(),
    {
    }

    pub closed spec fn id_view(&self) -> usize {
        self.id
    }

    pub closed spec fn bloom_view(&self) -> Option<Bloom> {
        self.bloom
    }

    pub closed spec fn wf(&self) -> bool {
        &&& self.block_meta@.len() > 0
        &&& self.block_meta_offset <= self.file@.len()
        &&& bounds_ok(self.metas(), self.meta_offset())
        &&& blocks_ok(self.file@, self.metas(), self.meta_offset())
        &&& self.first_key@ == self.metas()[0].1
        &&& self.last_key@ == self.metas().last().2
        &&& self.size == self.file@.len()
        &&& self.bloom matches Some(b) ==> b.wf()
        &&& self.max_ts == 0
    }

    /// A well-formed table has a block.
    pub proof fn lemma_has_block(&self)
        requires
            self.wf(),
        ensures
            self.num_blocks() > 0,
    {
    }

    /// The last key of each block, as the index gives it.
    pub open spec fn index_last_keys(&self) -> Seq<Seq<u8>> {
        self.metas().map_values(|m: MetaView| m.2)
    }

    /// The index names the last key of each block, and only a table of one block has a block
    /// without entries.
    pub open spec fn index_matches(&self) -> bool {
        forall|i: int|
            0 <= i < self.num_blocks() ==> {
                &&& #[trigger] self.block_entries(i).len() > 0 ==> self.index_last_keys()[i]
                    == self.block_entries(i).last().0
                &&& self.block_entries(i).len() == 0 ==> self.num_blocks() == 1
            }
    }

    /// Number of blocks.
    pub open spec fn num_blocks(&self) -> nat {
        self.metas().len()
    }

    /// The entries of block `i`.
    pub open spec fn block_entries(&self, i: int) -> Seq<Entry> {
        region_entries(region(self.file_view(), self.metas(), self.meta_offset(), i))
    }

    /// The entries of blocks `i..`, in order.
    pub open spec fn entries_from(&self, i: int) -> Seq<Entry> {
        entries_from(self.file_view(), self.metas(), self.meta_offset(), i)
    }

    /// Every entry of the table.
    pub open spec fn entries(&self) -> Seq<Entry> {
        self.entries_from(0)
    }

    /// Opens a table from the bytes of its file.
    pub fn open(id: usize, file: Vec<u8>) -> (r: Result<SsTable, LsmError>)
        ensures
            r is Ok <==> file_ok(file@),
            match r {
                Ok(t) => {
                    &&& t.wf()
                    &&& t.file_view() == file@
                    &&& t.metas() == file_metas(file@)
                    &&& t.meta_offset() == meta_offset_of(file@)
                    &&& t.entries() == file_entries(file@)
                    &&& t.id_view() == id
                    &&& file_index_matches(file@) ==> t.index_matches()
                    &&& t.bloom_view() matches Some(b) && b.encoding() == file@.subrange(
                        bloom_offset_of(file@),
                        file@.len() - 4,
                    )
                },
                Err(e) => {
                    &&& !footer_ok(file@) <==> e == LsmError::CorruptFooter
                    &&& footer_ok(file@) && !metas_ok(file@) ==> e == LsmError::CorruptMeta
                    &&& footer_ok(file@) && metas_ok(file@) && !bounds_ok(
                        file_metas(file@),
                        meta_offset_of(file@),
                    ) ==> e == LsmError::CorruptMeta
                    &&& footer_ok(file@) && metas_ok(file@) && bounds_ok(
                        file_metas(file@),
                        meta_offset_of(file@),
                    ) ==> e == LsmError::CorruptBlock
                },
            },
    {
        let len = file.len();
        if len < 8 {
            return Err(LsmError::CorruptFooter);
        }
        let bloom_offset = get_u32(file.as_slice(), len - 4) as usize;
        if bloom_offset < 4 || bloom_offset > len - 4 {
            return Err(LsmError::CorruptFooter);
        }
        let meta_offset = get_u32(file.as_slice(), bloom_offset - 4) as usize;
        if meta_offset > bloom_offset - 4 {
            return Err(LsmError::CorruptFooter);
        }
        let bloom = match Bloom::decode(slice_subrange(file.as_slice(), bloom_offset, len - 4)) {
            Ok(b) => b,
            Err(e) => {
                return Err(e);
            },
        };
        let block_meta = match BlockMeta::decode_block_meta(
            slice_subrange(file.as_slice(), meta_offset, bloom_offset - 4),
        ) {
            Ok(ms) => ms,
            Err(e) => {
                return Err(e);
            },
        };
        let n = block_meta.len();
        if n == 0 {
            return Err(LsmError::CorruptMeta);
        }
        let ghost ms = metas_view(block_meta@);
        assert(ms == file_metas(file@));
        if !check_bounds(block_meta.as_slice(), meta_offset) {
            return Err(LsmError::CorruptMeta);
        }
        if !check_blocks(file.as_slice(), block_meta.as_slice(), meta_offset) {
            return Err(LsmError::CorruptBlock);
        }
        let first_key = copy_range(block_meta[0].first_key.as_slice(), 0, block_meta[0].first_key.len());
        let last_key = copy_range(
            block_meta[n - 1].last_key.as_slice(),
            0,
            block_meta[n - 1].last_key.len(),
        );
        assert(block_meta[0].first_key@.subrange(0, block_meta[0].first_key@.len() as int) =~= block_meta[0].first_key@);
        assert(block_meta[n - 1].last_key@.subrange(0, block_meta[n - 1].last_key@.len() as int) =~= block_meta[n - 1].last_key@);
        let t = SsTable {
            file,
            block_meta,
            block_meta_offset: meta_offset,
            id,
            first_key,
            last_key,
            size: len as u64,
            bloom: Some(bloom),
            max_ts: 0,
        };
        proof {
            if file_index_matches(file@) {
                assert forall|i: int| 0 <= i < t.num_blocks() implies #[trigger] t.index_last_keys()[i] == ms[i].2 by {}
                assert(t.index_matches()) by {
                    assert forall|i: int| 0 <= i < t.num_blocks() implies (#[trigger] t.block_entries(i).len() > 0 ==> t.index_last_keys()[i]
                        == t.block_entries(i).last().0) && (t.block_entries(i).len() == 0 ==> t.num_blocks() == 1) by {
                        assert(t.index_last_keys()[i] == ms[i].2);
                        assert(t.block_entries(i) == region_entries(region(file@, ms, meta_offset as int, i)));
                    }
                }
            }
        }
        Ok(t)
    }

    /// Decodes block `block_idx`.
    pub fn read_block(&self, block_idx: usize) -> (r: Result<Arc<Block>, LsmError>)
        requires
            self.wf(),
        ensures
            r is Ok <==> block_idx < self.num_blocks(),
            match r {
                Ok(b) => b.wf() && b.entries() == self.block_entries(block_idx as int),
                Err(e) => e == LsmError::NoSuchBlock,
            },
    {
        let n = self.block_meta.len();
        if block_idx >= n {
            return Err(LsmError::NoSuchBlock);
        }
        let ghost ms = self.metas();
        let end = if block_idx + 1 < n {
            self.block_meta[block_idx + 1].offset
        } else {
            self.block_meta_offset
        };
        assert(end == region_end(ms, self.meta_offset(), block_idx as int));
        assert(ms[block_idx as int].0 <= end);
        let bytes = slice_subrange(self.file.as_slice(), self.block_meta[block_idx].offset, end);
        assert(block_bytes_ok(region(self.file@, ms, self.meta_offset(), block_idx as int)));
        match Block::decode(bytes) {
            Ok(b) => Ok(Arc::new(b)),
            Err(e) => Err(e),
        }
    }

    /// Decodes block `block_idx`; the table keeps no cache of its own, so this reads the file
    /// image as `read_block` does.
    pub fn read_block_cached(&self, block_idx: usize) -> (r: Result<Arc<Block>, LsmError>)
        requires
            self.wf(),
        ensures
            r is Ok <==> block_idx < self.num_blocks(),
            match r {
                Ok(b) => b.wf() && b.entries() == self.block_entries(block_idx as int),
                Err(e) => e == LsmError::NoSuchBlock,
            },
    {
        self.read_block(block_idx)
    }

    /// The first block whose last key is at least `key`; the last block when there is none.
    pub fn find_block_idx(&self, key: &[u8]) -> (r: usize)
        requires
            self.wf(),
        ensures
            r < self.num_blocks(),
            r == if first_key_at_least(self.metas().map_values(|m: MetaView| m.2), key@)
                < self.num_blocks() {
                first_key_at_least(self.metas().map_values(|m: MetaView| m.2), key@)
            } else {
                (self.num_blocks() - 1) as nat
            },
    {
        let ghost lasts = self.metas().map_values(|m: MetaView| m.2);
        let n = self.block_meta.len();
        let mut i: usize = 0;
        assert(lasts.skip(0) =~= lasts);
        while i < n
            invariant
                n == self.block_meta@.len(),
                lasts == self.metas().map_values(|m: MetaView| m.2),
                i <= n,
                first_key_at_least(lasts, key@) == i + first_key_at_least(lasts.skip(i as int), key@),
            decreases n - i,
        {
            assert(lasts[i as int] == self.block_meta[i as int].last_key@);
            assert(lasts.skip(i as int).drop_first() =~= lasts.skip(i + 1));
            if compare_keys(self.block_meta[i].last_key.as_slice(), key) >= 0 {
                return i;
            }
            i = i + 1;
        }
        n - 1
    }

    /// Tests the key against the Bloom filter: false means that the table does not hold it.
    pub fn may_contain(&self, key: &[u8]) -> (r: bool)
        requires
            self.wf(),
        ensures
            r == (self.bloom_view() matches Some(b) ==> b.contains(fingerprint_of(key@))),
    {
        match &self.bloom {
            Some(b) => b.may_contain(key_fingerprint(key)),
            None => true,
        }
    }

    /// Number of data blocks.
    pub fn num_of_blocks(&self) -> (r: usize)
        ensures
            r == self.num_blocks(),
    {
        self.block_meta.len()
    }

    /// The first key of the first block.
    pub fn first_key(&self) -> (r: &[u8])
        ensures
            r@ == self.first_key_view(),
    {
        self.first_key.as_slice()
    }

    /// The last key of the last block.
    pub fn last_key(&self) -> (r: &[u8])
        ensures
            r@ == self.last_key_view(),
    {
        self.last_key.as_slice()
    }

    /// Size of the file in bytes.
    pub fn table_size(&self) -> (r: u64)
        ensures
            r == self.size_view(),
    {
        self.size
    }

    /// A table with key bounds and a size only, and no blocks: it stands for a file that is
    /// not read.
    pub fn create_meta_only(id: usize, file_size: u64, first_key: Vec<u8>, last_key: Vec<u8>) -> (r: SsTable)
        ensures
            r.id_view() == id,
            r.size_view() == file_size,
            r.first_key_view() == first_key@,
            r.last_key_view() == last_key@,
            r.num_blocks() == 0,
    {
        let r = SsTable {
            file: Vec::new(),
            block_meta: Vec::new(),
            block_meta_offset: 0,
            id,
            first_key,
            last_key,
            size: file_size,
            bloom: None,
            max_ts: 0,
        };
        assert(r.metas() =~= Seq::<MetaView>::empty());
        r
    }

    /// The bytes of the file.
    pub fn file_bytes(&self) -> (r: &[u8])
        ensures
            r@ == self.file_view(),
    {
        self.file.as_slice()
    }

    pub fn sst_id(&self) -> (r: usize)
        ensures
            r == self.id_view(),
    {
        self.id
    }

    /// The largest timestamp in the table; this format keeps none, so it is zero.
    pub fn max_ts(&self) -> (r: u64)
        requires
            self.wf(),
        ensures
            r == 0,
    {
        self.max_ts
    }
}

} // verus!
