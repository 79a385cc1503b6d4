//! Streams sorted entries into blocks and lays out a table file.
use vstd::prelude::*;
use crate::block::{Entry, block_bytes_ok, sorted_entries};
use crate::block_builder::{BlockBuilder, lemma_sorted_push};
use crate::bloom::Bloom;
use crate::codec::{copy_range, put_bytes, put_u32};
use crate::error::LsmError;
use crate::key::key_lt;
use crate::meta::{BlockMeta, MetaView, meta_encodable, metas_view};
use crate::table::{fingerprint_of, key_fingerprint, region_entries};

verus! {

/// Sequences one after another, the last appended last.
pub open spec fn concat<A>(s: Seq<Seq<A>>) -> Seq<A>
    decreases s.len(),
{
    if s.len() == 0 {
        Seq::empty()
    } else {
        concat(s.drop_last()) + s.last()
    }
}

pub proof fn lemma_concat_append<A>(a: Seq<Seq<A>>, b: Seq<Seq<A>>)
    ensures
        concat(a + b) == concat(a) + concat(b),
    decreases b.len(),
{
    if b.len() == 0 {
        assert(a + b =~= a);
        assert(concat(a) + concat(b) =~= concat(a));
    } else {
        lemma_concat_append(a, b.drop_last());
        assert((a + b).drop_last() =~= a + b.drop_last());
        assert(concat(a) + concat(b) =~= concat(a) + concat(b.drop_last()) + b.last());
    }
}

/// The encoded blocks of a table file, as its index delimits them.
pub open spec fn file_blocks(f: Seq<u8>) -> Seq<Seq<u8>> {
    Seq::new(
        crate::table::file_metas(f).len(),
        |i: int| crate::table::region(f, crate::table::file_metas(f), crate::table::meta_offset_of(f), i),
    )
}

/// The fingerprints of the keys of `es`, in order.
pub open spec fn key_hashes_of(es: Seq<Entry>) -> Seq<u32> {
    Seq::new(es.len(), |i: int| fingerprint_of(es[i].0))
}

/// Bits per key of the filter: for a false-positive rate of one in a hundred,
/// `ceil(-ln(0.01) / ln(2)²) = 10`.
pub const BLOOM_BITS_PER_KEY: usize = 10;

/// Builds a table from entries given in ascending key order.
pub struct SsTableBuilder {
    builder: BlockBuilder,
    first_key: Vec<u8>,
    last_key: Vec<u8>,
    data: Vec<u8>,
    meta: Vec<BlockMeta>,
    block_size: usize,
    key_hashes: Vec<u32>,
    /// The encoding of each finished block.
    encs: Ghost<Seq<Seq<u8>>>,
    /// The entries of each finished block.
    blocks: Ghost<Seq<Seq<Entry>>>,
}

impl SsTableBuilder {
    /// Every entry added, in order.
    pub closed spec fn added(&self) -> Seq<Entry> {
        concat(self.blocks@) + self.builder.entries()
    }

    /// The entries of each finished block.
    pub closed spec fn flushed(&self) -> Seq<Seq<Entry>> {
        self.blocks@
    }

    /// The encoding of each finished block.
    pub closed spec fn flushed_encodings(&self) -> Seq<Seq<u8>> {
        self.encs@
    }

    /// The meta of each finished block.
    pub closed spec fn metas(&self) -> Seq<MetaView> {
        metas_view(self.meta@)
    }

    /// The entries of the block being filled.
    pub closed spec fn current_block(&self) -> Seq<Entry> {
        self.builder.entries()
    }

    /// The finished blocks lie end to end in the data; each meta gives its block's offset and
    /// first and last keys; the entries added are those of the finished blocks, then those of
    /// the block being filled.
    pub proof fn lemma_flushed_layout(&self)
        requires
            self.wf(),
        ensures
            self.data_view() == concat(self.flushed_encodings()),
            self.flushed_encodings().len() == self.flushed().len(),
            self.metas().len() == self.flushed().len(),
            self.added() == concat(self.flushed()) + self.current_block(),
            forall|i: int|
                0 <= i < self.flushed().len() ==> {
                    &&& block_bytes_ok(#[trigger] self.flushed_encodings()[i])
                    &&& region_entries(self.flushed_encodings()[i]) == self.flushed()[i]
                    &&& self.flushed()[i].len() > 0
                    &&& self.metas()[i] == (
                        concat(self.flushed_encodings().take(i)).len(),
                        self.flushed()[i][0].0,
                        self.flushed()[i].last().0,
                    )
                },
    {
        assert forall|i: int| 0 <= i < self.flushed().len() implies {
            &&& block_bytes_ok(#[trigger] self.flushed_encodings()[i])
            &&& region_entries(self.flushed_encodings()[i]) == self.flushed()[i]
            &&& self.flushed()[i].len() > 0
            &&& self.metas()[i] == (
                concat(self.flushed_encodings().take(i)).len(),
                self.flushed()[i][0].0,
                self.flushed()[i].last().0,
            )
        } by {
            assert(self.blocks@[i].len() > 0);
            let m = self.metas()[i];
            assert(m.0 == concat(self.encs@.take(i)).len());
            assert(m.1 == self.blocks@[i][0].0);
            assert(m.2 == self.blocks@[i].last().0);
        }
    }

    /// The keys added so far strictly ascend.
    pub proof fn lemma_added_sorted(&self)
        requires
            self.wf(),
        ensures
            sorted_entries(self.added()),
    {
    }

    pub closed spec fn data_view(&self) -> Seq<u8> {
        self.data@
    }

    pub closed spec fn wf(&self) -> bool {
        &&& self.wf_base()
        &&& self.blocks_named()
        &&& forall|i: int| 0 <= i < self.blocks@.len() ==> #[trigger] self.blocks@[i].len() > 0
        &&& self.builder.entries().len() == 0 ==> self.blocks@.len() == 0
    }

    /// The meta that finishing the current block records.
    pub closed spec fn pending_meta(&self) -> MetaView {
        let es = self.builder.entries();
        if es.len() == 0 {
            (self.data@.len(), Seq::empty(), Seq::empty())
        } else {
            (self.data@.len(), es[0].0, es.last().0)
        }
    }

    /// Where the meta index of the file would end: the blocks, the current one finished, and
    /// the records of their metas.
    pub closed spec fn index_end(&self) -> nat {
        self.data@.len() + self.builder.estimate() + crate::meta::metas_bytes(
            metas_view(self.meta@).push(self.pending_meta()),
        ).len()
    }

    /// The meta of each finished block with entries names its first and last keys.
    closed spec fn blocks_named(&self) -> bool {
        forall|i: int|
            0 <= i < self.blocks@.len() && #[trigger] self.blocks@[i].len() > 0 ==> metas_view(
                self.meta@,
            )[i].2 == self.blocks@[i].last().0 && metas_view(self.meta@)[i].1 == self.blocks@[i][0].0
    }

    closed spec fn wf_base(&self) -> bool {
        let encs = self.encs@;
        let blocks = self.blocks@;
        let ms = metas_view(self.meta@);
        &&& self.builder.wf()
        &&& self.builder.target() == self.block_size
        &&& self.block_size <= 0x1_0000
        &&& encs.len() == blocks.len()
        &&& ms.len() == blocks.len()
        &&& self.data@ == concat(encs)
        &&& forall|i: int| 0 <= i < encs.len() ==> block_bytes_ok(#[trigger] encs[i])
        &&& forall|i: int| 0 <= i < encs.len() ==> region_entries(#[trigger] encs[i]) == blocks[i]
        &&& forall|i: int| 0 <= i < ms.len() ==> #[trigger] ms[i].0 == concat(encs.take(i)).len()
        &&& forall|i: int|
            0 <= i < ms.len() ==> #[trigger] ms[i].1.len() < 0x1_0000 && ms[i].2.len() < 0x1_0000
        &&& sorted_entries(self.added())
        &&& forall|i: int| 0 <= i < self.added().len() ==> (#[trigger] self.added()[i]).0.len() < 0x1_0000
        &&& self.key_hashes@.len() == self.added().len()
        &&& forall|i: int|
            0 <= i < self.key_hashes@.len() ==> #[trigger] self.key_hashes@[i] == fingerprint_of(
                self.added()[i].0,
            )
        &&& self.added().len() > 0 ==> self.first_key@ == self.added()[0].0 && self.last_key@
            == self.added().last().0
    }

    /// Creates a builder whose blocks have the given byte budget; block offsets are 16 bits
    /// wide, which bounds the budget.
    pub fn new(block_size: usize) -> (r: Self)
        requires
            block_size <= 0x1_0000,
        ensures
            r.wf(),
            r.added() == Seq::<Entry>::empty(),
            r.flushed() == Seq::<Seq<Entry>>::empty(),
            r.current_block() == Seq::<Entry>::empty(),
            r.data_view().len() == 0,
    {
        let r = SsTableBuilder {
            builder: BlockBuilder::new(block_size),
            first_key: Vec::new(),
            last_key: Vec::new(),
            data: Vec::new(),
            meta: Vec::new(),
            block_size,
            key_hashes: Vec::new(),
            encs: Ghost(Seq::empty()),
            blocks: Ghost(Seq::empty()),
        };
        proof {
            reveal(sorted_entries);
            assert(r.added() =~= Seq::<Entry>::empty());
        }
        r
    }

    /// Finishes the current block: records its meta and appends its encoding.
    fn finish_block(&mut self)
        requires
            old(self).wf(),
        ensures
            final(self).wf_base(),
            final(self).blocks_named(),
            old(self).builder.entries().len() > 0 ==> forall|i: int|
                0 <= i < final(self).blocks@.len() ==> #[trigger] final(self).blocks@[i].len() > 0,
            forall|i: int|
                0 <= i < final(self).blocks@.len() && #[trigger] final(self).blocks@[i].len() == 0
                    ==> final(self).blocks@.len() == 1,
            final(self).added() == old(self).added(),
            final(self).builder.entries().len() == 0,
            final(self).data_view().len() == old(self).data_view().len() + old(self).builder.estimate(),
            metas_view(final(self).meta@) == metas_view(old(self).meta@).push(old(self).pending_meta()),
            final(self).blocks@ == old(self).blocks@.push(old(self).builder.entries()),
            final(self).encs@.len() == old(self).encs@.len() + 1,
    {
        let ghost added0 = self.added();
        let (first_key, last_key) = if self.builder.is_empty() {
            (Vec::new(), Vec::new())
        } else {
            (self.builder.first_key(), self.builder.last_key())
        };
        proof {
            if self.builder.entries().len() > 0 {
                let es = self.builder.entries();
                let last = es.len() - 1;
                assert(self.added()[concat(self.blocks@).len() as int] == es[0]);
                assert(self.added()[concat(self.blocks@).len() + last] == es[last as int]);
            }
        }
        let ghost ms0 = metas_view(self.meta@);
        let ghost pending = self.pending_meta();
        let m = BlockMeta { offset: self.data.len(), first_key, last_key };
        self.meta.push(m);
        let ghost bents = self.builder.entries();
        let block = self.builder.build();
        let enc = block.encode();
        proof {
            crate::block::lemma_block_round_trip(block);
        }
        let ghost data0 = self.data@;
        put_bytes(&mut self.data, enc.as_slice());
        let ghost encs0 = self.encs@;
        let ghost blocks0 = self.blocks@;
        proof {
            self.encs@ = encs0.push(enc@);
            self.blocks@ = blocks0.push(bents);
            assert(self.encs@.drop_last() =~= encs0);
            assert(self.blocks@.drop_last() =~= blocks0);
            assert(metas_view(self.meta@) =~= ms0.push(m@));
            assert(m@ == pending);
            let ms = metas_view(self.meta@);
            assert forall|i: int| 0 <= i < ms.len() implies #[trigger] ms[i].0 == concat(
                self.encs@.take(i),
            ).len() by {
                if i < ms0.len() {
                    assert(self.encs@.take(i) =~= encs0.take(i));
                    assert(ms[i] == ms0[i]);
                } else {
                    assert(self.encs@.take(i) =~= encs0);
                }
            }
            assert(self.added() =~= added0);
            assert forall|i: int|
                0 <= i < self.blocks@.len() && #[trigger] self.blocks@[i].len() > 0 implies ms[i].2
                == self.blocks@[i].last().0 && ms[i].1 == self.blocks@[i][0].0 by {
                if i < blocks0.len() {
                    assert(ms[i] == ms0[i]);
                    assert(self.blocks@[i] == blocks0[i]);
                } else {
                    assert(ms[i] == m@);
                }
            }
            assert(self.blocks_named());
            assert forall|i: int|
                0 <= i < self.blocks@.len() && #[trigger] self.blocks@[i].len() == 0 implies self.blocks@.len()
                == 1 by {
                if i < blocks0.len() {
                    assert(self.blocks@[i] == blocks0[i]);
                    assert(blocks0[i].len() > 0);
                }
            }
        }
    }

    /// Adds an entry; keys must come in strictly ascending order. When the current block is
    /// full it is finished and the entry starts a new one.
    pub fn add(&mut self, key: &[u8], value: &[u8])
        requires
            old(self).wf(),
            key@.len() < 0x1_0000,
            value@.len() < 0x1_0000,
            old(self).added().len() > 0 ==> key_lt(old(self).added().last().0, key@),
        ensures
            final(self).wf(),
            final(self).added() == old(self).added().push((key@, value@)),
            final(self).data_view().len() >= old(self).data_view().len(),
            final(self).flushed() == old(self).flushed() && final(self).current_block()
                == old(self).current_block().push((key@, value@)) && final(self).data_view()
                == old(self).data_view() || final(self).flushed() == old(self).flushed().push(
                old(self).current_block(),
            ) && final(self).current_block() == seq![(key@, value@)],
    {
        let ghost added0 = self.added();
        let was_empty = self.key_hashes.len() == 0;
        proof {
            let es = self.builder.entries();
            if es.len() > 0 {
                assert(added0.last() == es.last());
            }
        }
        if !self.builder.add(key, value) {
            self.finish_block();
            let ok = self.builder.add(key, value);
            assert(ok);
        }
        assert(self.added() =~= added0.push((key@, value@)));
        proof {
            lemma_sorted_push(added0, (key@, value@));
        }
        let h = key_fingerprint(key);
        self.key_hashes.push(h);
        if was_empty {
            self.first_key = copy_range(key, 0, key.len());
        }
        self.last_key = copy_range(key, 0, key.len());
        proof {
            assert(key@.subrange(0, key@.len() as int) =~= key@);
            assert(self.added()[added0.len() as int] == (key@, value@));
            if added0.len() > 0 {
                assert(self.added()[0] == added0[0]);
            }
            assert forall|i: int| 0 <= i < self.key_hashes@.len() implies #[trigger] self.key_hashes@[i]
                == fingerprint_of(self.added()[i].0) by {
                if i < added0.len() {
                    assert(self.added()[i] == added0[i]);
                }
            }
            assert forall|i: int| 0 <= i < self.added().len() implies (#[trigger] self.added()[i]).0.len() < 0x1_0000 by {
                if i < added0.len() {
                    assert(self.added()[i] == added0[i]);
                }
            }
        }
    }

    /// Bytes of finished blocks so far; the index is small beside them.
    pub fn estimated_size(&self) -> (r: usize)
        ensures
            r == self.data_view().len(),
    {
        self.data.len()
    }
}

} // verus!

verus! {

proof fn lemma_concat_take<A>(s: Seq<Seq<A>>, i: int)
    requires
        0 <= i < s.len(),
    ensures
        concat(s.take(i + 1)) == concat(s.take(i)) + s[i],
        concat(s) == concat(s.take(i + 1)) + concat(s.skip(i + 1)),
        concat(s.take(i)).len() + s[i].len() <= concat(s).len(),
{
    assert(s.take(i + 1).drop_last() =~= s.take(i));
    lemma_concat_append(s.take(i + 1), s.skip(i + 1));
    assert(s.take(i + 1) + s.skip(i + 1) =~= s);
}

/// The first and last elements of a concatenation of non-empty sequences.
proof fn lemma_concat_ends<A>(s: Seq<Seq<A>>)
    requires
        s.len() > 0,
        s[0].len() > 0,
        s.last().len() > 0,
    ensures
        concat(s).len() > 0,
        concat(s)[0] == s[0][0],
        concat(s).last() == s.last().last(),
{
    lemma_concat_take(s, 0);
    assert(s.take(0) =~= Seq::<Seq<A>>::empty());
    assert(concat(s.take(1)) =~= s[0]);
}

/// Where two neighbouring non-empty sequences meet in a concatenation.
proof fn lemma_concat_boundary<A>(s: Seq<Seq<A>>, i: int)
    requires
        0 <= i < s.len() - 1,
        s[i].len() > 0,
        s[i + 1].len() > 0,
    ensures
        1 <= concat(s.take(i + 1)).len() < concat(s).len(),
        concat(s)[concat(s.take(i + 1)).len() - 1] == s[i].last(),
        concat(s)[concat(s.take(i + 1)).len() as int] == s[i + 1][0],
{
    lemma_concat_take(s, i);
    lemma_concat_take(s, i + 1);
    let p = concat(s.take(i + 1)).len() as int;
    assert(concat(s)[p - 1] == concat(s.take(i + 1))[p - 1]);
    assert(concat(s)[p] == concat(s.take(i + 2))[p]);
}

/// When the finished blocks hold entries, their metas start and end with the first and last
/// keys and are ordered.
proof fn lemma_finished_metas(blocks: Seq<Seq<Entry>>, ms: Seq<MetaView>)
    requires
        blocks.len() > 0,
        sorted_entries(concat(blocks)),
        ms.len() == blocks.len(),
        concat(blocks).len() > 0 ==> forall|i: int| 0 <= i < blocks.len() ==> #[trigger] blocks[i].len() > 0,
        forall|i: int|
            0 <= i < blocks.len() && #[trigger] blocks[i].len() > 0 ==> ms[i].2 == blocks[i].last().0
                && ms[i].1 == blocks[i][0].0,
    ensures
        concat(blocks).len() > 0 ==> forall|i: int| 0 <= i < ms.len() - 1 ==> key_lt(#[trigger] ms[i].2, ms[i + 1].1),
        concat(blocks).len() > 0 ==> ms[0].1 == concat(blocks)[0].0 && ms.last().2 == concat(blocks).last().0,
{
    if concat(blocks).len() > 0 {
        assert forall|i: int| 0 <= i < blocks.len() implies #[trigger] ms[i].2 == blocks[i].last().0
            && ms[i].1 == blocks[i][0].0 by {
            assert(blocks[i].len() > 0);
        }
        lemma_metas_ordered(blocks, ms);
        assert(blocks[0].len() > 0);
        assert(blocks.last().len() > 0);
        lemma_concat_ends(blocks);
    }
}

/// In a sorted table, the last key of each finished block is below the first key of the next.
proof fn lemma_metas_ordered(blocks: Seq<Seq<Entry>>, ms: Seq<MetaView>)
    requires
        sorted_entries(concat(blocks)),
        ms.len() == blocks.len(),
        forall|i: int| 0 <= i < blocks.len() ==> #[trigger] blocks[i].len() > 0,
        forall|i: int|
            0 <= i < blocks.len() ==> #[trigger] ms[i].2 == blocks[i].last().0 && ms[i].1
                == blocks[i][0].0,
    ensures
        forall|i: int| 0 <= i < ms.len() - 1 ==> key_lt(#[trigger] ms[i].2, ms[i + 1].1),
{
    reveal(sorted_entries);
    assert forall|i: int| 0 <= i < ms.len() - 1 implies key_lt(#[trigger] ms[i].2, ms[i + 1].1) by {
        assert(blocks[i].len() > 0);
        assert(blocks[i + 1].len() > 0);
        lemma_concat_boundary(blocks, i);
        let p = concat(blocks.take(i + 1)).len() as int;
        assert(ms[i].2 == concat(blocks)[p - 1].0);
        assert(ms[i + 1].2 == blocks[i + 1].last().0);
        assert(ms[i + 1].1 == concat(blocks)[p].0);
    }
}

proof fn lemma_concat_front<A>(s: Seq<Seq<A>>, i: int)
    requires
        0 <= i < s.len(),
    ensures
        concat(s.skip(i)) == s[i] + concat(s.skip(i + 1)),
{
    lemma_concat_append(seq![s[i]], s.skip(i + 1));
    assert(seq![s[i]] + s.skip(i + 1) =~= s.skip(i));
    let e = seq![s[i]];
    assert(e.drop_last() =~= Seq::<Seq<A>>::empty());
    assert(concat(e.drop_last()) == Seq::<A>::empty());
    assert(e.last() == s[i]);
    assert(concat(e) =~= s[i]);
}

proof fn lemma_entries_from_blocks(
    f: Seq<u8>,
    ms: Seq<MetaView>,
    mo: int,
    encs: Seq<Seq<u8>>,
    blocks: Seq<Seq<Entry>>,
    i: int,
)
    requires
        0 <= i <= ms.len(),
        ms.len() == encs.len() == blocks.len(),
        forall|j: int| 0 <= j < ms.len() ==> #[trigger] crate::table::region(f, ms, mo, j) == encs[j],
        forall|j: int| 0 <= j < encs.len() ==> region_entries(#[trigger] encs[j]) == blocks[j],
    ensures
        crate::table::entries_from(f, ms, mo, i) == concat(blocks.skip(i)),
    decreases ms.len() - i,
{
    if i < ms.len() {
        lemma_entries_from_blocks(f, ms, mo, encs, blocks, i + 1);
        lemma_concat_front(blocks, i);
        assert(crate::table::region(f, ms, mo, i) == encs[i]);
    } else {
        assert(blocks.skip(i) =~= Seq::<Seq<Entry>>::empty());
    }
}

/// The bytes that `build` lays out: blocks, meta index, its offset, filter, its offset.
pub open spec fn table_file(encs: Seq<Seq<u8>>, ms: Seq<MetaView>, bloom: Seq<u8>) -> Seq<u8> {
    let d = concat(encs);
    let m = crate::meta::metas_bytes(ms);
    d + m + crate::codec::u32_bytes(d.len()) + bloom + crate::codec::u32_bytes(
        d.len() + m.len() + 4,
    )
}

/// The footer of the laid-out file points at its meta index and filter.
proof fn lemma_footer(d: Seq<u8>, m: Seq<u8>, b: Seq<u8>)
    requires
        d.len() + m.len() + 4 <= 0xFFFF_FFFF,
    ensures
        ({
            let mo = d.len();
            let bo = d.len() + m.len() + 4;
            let f = d + m + crate::codec::u32_bytes(mo) + b + crate::codec::u32_bytes(bo);
            &&& f.len() == bo + b.len() + 4
            &&& crate::table::bloom_offset_of(f) == bo
            &&& crate::table::meta_offset_of(f) == mo
            &&& f.subrange(bo as int, f.len() - 4) == b
            &&& crate::table::meta_region(f) == m
            &&& f.subrange(0, mo as int) == d
        }),
{
    let mo = d.len();
    let bo = d.len() + m.len() + 4;
    let f = d + m + crate::codec::u32_bytes(mo) + b + crate::codec::u32_bytes(bo);
    crate::codec::lemma_read_u32_bytes(bo, d + m + crate::codec::u32_bytes(mo) + b, Seq::empty());
    assert(d + m + crate::codec::u32_bytes(mo) + b + crate::codec::u32_bytes(bo) + Seq::<u8>::empty() =~= f);
    crate::codec::lemma_read_u32_bytes(mo, d + m, b + crate::codec::u32_bytes(bo));
    assert(d + m + crate::codec::u32_bytes(mo) + (b + crate::codec::u32_bytes(bo)) =~= f);
    assert(f.subrange(bo as int, f.len() - 4) =~= b);
    assert(crate::table::meta_region(f) =~= m);
    assert(f.subrange(0, mo as int) =~= d);
}

/// Block `i` of the laid-out file is the encoding of the `i`-th block.
proof fn lemma_regions(f: Seq<u8>, encs: Seq<Seq<u8>>, ms: Seq<MetaView>)
    requires
        concat(encs).len() <= f.len(),
        f.subrange(0, concat(encs).len() as int) == concat(encs),
        encs.len() == ms.len(),
        forall|i: int| 0 <= i < ms.len() ==> #[trigger] ms[i].0 == concat(encs.take(i)).len(),
    ensures
        forall|i: int|
            0 <= i < ms.len() ==> #[trigger] crate::table::region(f, ms, concat(encs).len() as int, i)
                == encs[i],
        crate::table::bounds_ok(ms, concat(encs).len() as int),
{
    let d = concat(encs);
    let mo = d.len() as int;
    assert forall|i: int| 0 <= i < ms.len() implies #[trigger] crate::table::region(f, ms, mo, i)
        == encs[i] && ms[i].0 <= crate::table::region_end(ms, mo, i) <= mo by {
        lemma_concat_take(encs, i);
        if i + 1 < ms.len() {
            assert(ms[i + 1].0 == concat(encs.take(i + 1)).len());
        } else {
            assert(encs.take(i + 1) =~= encs);
        }
        let p = concat(encs.take(i)).len() as int;
        assert(ms[i].0 == p);
        assert(crate::table::region_end(ms, mo, i) == p + encs[i].len());
        assert(crate::table::region(f, ms, mo, i) == f.subrange(p, p + encs[i].len()));
        assert(f.subrange(p, p + encs[i].len()) =~= encs[i]) by {
            assert forall|x: int| 0 <= x < encs[i].len() implies f[p + x] == encs[i][x] by {
                assert(f.subrange(0, mo)[p + x] == d[p + x]);
                assert(d[p + x] == (concat(encs.take(i)) + encs[i])[p + x]);
            }
        }
    }
    assert forall|i: int| 0 <= i < ms.len() implies #[trigger] ms[i].0 <= crate::table::region_end(ms, mo, i) <= mo by {
        lemma_concat_take(encs, i);
        if i + 1 < ms.len() {
            assert(ms[i + 1].0 == concat(encs.take(i + 1)).len());
        }
    }
}

/// The laid-out file opens to the metas, blocks and filter it was made of.
proof fn lemma_table_file(encs: Seq<Seq<u8>>, blocks: Seq<Seq<Entry>>, ms: Seq<MetaView>, b: Seq<u8>)
    requires
        encs.len() == blocks.len(),
        ms.len() == blocks.len(),
        ms.len() > 0,
        forall|i: int| 0 <= i < encs.len() ==> block_bytes_ok(#[trigger] encs[i]),
        forall|i: int| 0 <= i < encs.len() ==> region_entries(#[trigger] encs[i]) == blocks[i],
        forall|i: int| 0 <= i < ms.len() ==> #[trigger] ms[i].0 == concat(encs.take(i)).len(),
        forall|i: int| 0 <= i < ms.len() ==> meta_encodable(#[trigger] ms[i]),
        concat(encs).len() + crate::meta::metas_bytes(ms).len() + 4 <= 0xFFFF_FFFF,
        crate::bloom::bloom_bytes_ok(b),
    ensures
        ({
            let f = table_file(encs, ms, b);
            let bo = concat(encs).len() + crate::meta::metas_bytes(ms).len() + 4;
            &&& crate::table::file_ok(f)
            &&& crate::table::file_metas(f) == ms
            &&& crate::table::meta_offset_of(f) == concat(encs).len()
            &&& crate::table::bloom_offset_of(f) == bo
            &&& crate::table::file_entries(f) == concat(blocks)
            &&& f.subrange(bo as int, f.len() - 4) == b
        }),
{
    let d = concat(encs);
    let m = crate::meta::metas_bytes(ms);
    let mo = d.len() as int;
    let f = table_file(encs, ms, b);
    lemma_footer(d, m, b);
    crate::meta::lemma_meta_round_trip(ms);
    assert(crate::table::file_metas(f) == ms);
    lemma_regions(f, encs, ms);
    assert forall|i: int| 0 <= i < ms.len() implies block_bytes_ok(#[trigger] crate::table::region(f, ms, mo, i)) by {
        assert(crate::table::region(f, ms, mo, i) == encs[i]);
    }
    assert(crate::table::blocks_ok(f, ms, mo));
    lemma_entries_from_blocks(f, ms, mo, encs, blocks, 0);
    assert(blocks.skip(0) =~= blocks);
}

/// The laid-out file is well formed, holds the blocks' entries, and ends with the filter.
proof fn lemma_layout_ok(
    encs: Seq<Seq<u8>>,
    blocks: Seq<Seq<Entry>>,
    ms: Seq<MetaView>,
    b: Bloom,
    f: Seq<u8>,
)
    requires
        encs.len() == blocks.len(),
        ms.len() == blocks.len(),
        ms.len() > 0,
        forall|i: int| 0 <= i < encs.len() ==> block_bytes_ok(#[trigger] encs[i]),
        forall|i: int| 0 <= i < encs.len() ==> region_entries(#[trigger] encs[i]) == blocks[i],
        forall|i: int| 0 <= i < ms.len() ==> #[trigger] ms[i].0 == concat(encs.take(i)).len(),
        forall|i: int| 0 <= i < ms.len() ==> meta_encodable(#[trigger] ms[i]),
        concat(encs).len() + crate::meta::metas_bytes(ms).len() + 4 <= 0xFFFF_FFFF,
        b.wf(),
        f == table_file(encs, ms, b.encoding()),
        forall|i: int|
            0 <= i < blocks.len() && #[trigger] blocks[i].len() > 0 ==> ms[i].2 == blocks[i].last().0,
        forall|i: int| 0 <= i < blocks.len() && #[trigger] blocks[i].len() == 0 ==> blocks.len() == 1,
    ensures
        crate::table::file_ok(f),
        crate::table::file_entries(f) == concat(blocks),
        crate::table::file_index_matches(f),
        crate::table::file_metas(f) == ms,
        file_blocks(f) == encs,
        b.encoding() == f.subrange(crate::table::bloom_offset_of(f), f.len() - 4),
{
    lemma_table_file(encs, blocks, ms, b.encoding());
    let d = concat(encs);
    lemma_footer(d, crate::meta::metas_bytes(ms), b.encoding());
    lemma_regions(f, encs, ms);
    let mo = d.len() as int;
    assert forall|i: int| 0 <= i < ms.len() implies {
        let es = #[trigger] region_entries(crate::table::region(f, ms, mo, i));
        &&& es.len() > 0 ==> ms[i].2 == es.last().0
        &&& es.len() == 0 ==> ms.len() == 1
    } by {
        assert(crate::table::region(f, ms, mo, i) == encs[i]);
        assert(region_entries(encs[i]) == blocks[i]);
    }
    assert(file_blocks(f) =~= encs);
}

/// A filter holding each hash holds the fingerprint of each key that the hashes are of.
proof fn lemma_hashes_contained(b: Bloom, hashes: Seq<u32>, es: Seq<Entry>)
    requires
        hashes.len() == es.len(),
        forall|j: int| 0 <= j < hashes.len() ==> b.contains(#[trigger] hashes[j]),
        forall|i: int| 0 <= i < hashes.len() ==> #[trigger] hashes[i] == fingerprint_of(es[i].0),
    ensures
        forall|i: int| 0 <= i < es.len() ==> b.contains(fingerprint_of(#[trigger] es[i].0)),
{
    assert forall|i: int| 0 <= i < es.len() implies b.contains(fingerprint_of(#[trigger] es[i].0)) by {
        assert(hashes[i] == fingerprint_of(es[i].0));
        assert(b.contains(hashes[i]));
    }
}

/// What a builder wrote, a reader reads: a table opened from the bytes of a built table has
/// the entries that were added to the builder.
pub proof fn lemma_reopen_same_entries(built: crate::table::SsTable, opened: crate::table::SsTable, added: Seq<Entry>)
    requires
        crate::table::file_entries(built.file_view()) == added,
        opened.file_view() == built.file_view(),
        opened.entries() == crate::table::file_entries(opened.file_view()),
    ensures
        opened.entries() == added,
{
}

/// Filters with one encoding admit the same fingerprints.
proof fn lemma_same_bloom(a: Bloom, b: Bloom)
    requires
        a.encoding() == b.encoding(),
    ensures
        a.filter@ == b.filter@,
        a.k == b.k,
        forall|h: u32| a.contains(h) == b.contains(h),
{
    assert(a.filter@ =~= a.encoding().drop_last());
    assert(b.filter@ =~= b.encoding().drop_last());
    assert(a.k == a.encoding().last());
    assert(b.k == b.encoding().last());
    assert(a.filter@ == b.filter@);
    assert forall|h: u32| a.contains(h) == b.contains(h) by {
        assert(a.nbits() == b.nbits());
    }
}

impl SsTableBuilder {
    /// The encodable fields of the metas.
    proof fn lemma_metas_encodable(&self)
        requires
            self.wf_base(),
            self.data_view().len() <= 0xFFFF_FFFF,
        ensures
            forall|i: int| 0 <= i < self.meta@.len() ==> meta_encodable(#[trigger] self.meta@[i]@),
    {
        let ms = metas_view(self.meta@);
        assert forall|i: int| 0 <= i < self.meta@.len() implies meta_encodable(#[trigger] self.meta@[i]@) by {
            assert(ms[i] == self.meta@[i]@);
            lemma_concat_take(self.encs@, i);
        }
    }

    /// Finishes the last block and lays out the file; returns it with its filter.
    #[verifier::rlimit(60)]
    fn lay_out(self) -> (r: Result<(Vec<u8>, Bloom), LsmError>)
        requires
            self.wf(),
        ensures
            match r {
                Ok((f, b)) => {
                    &&& crate::table::file_ok(f@)
                    &&& crate::table::file_entries(f@) == self.added()
                    &&& crate::table::file_index_matches(f@)
                    &&& crate::table::file_metas(f@)[0].0 == 0
                    &&& f@ == table_file(file_blocks(f@), crate::table::file_metas(f@), b.encoding())
                    &&& b.k == crate::bloom::probe_count(BLOOM_BITS_PER_KEY as nat)
                    &&& b.filter@.len() == crate::bloom::filter_bytes(self.added().len(), BLOOM_BITS_PER_KEY as nat)
                    &&& forall|q: nat| q < b.nbits() ==> #[trigger] crate::bloom::bit_set(b.filter@, q)
                        == crate::bloom::probed(key_hashes_of(self.added()), b.k as nat, b.nbits(), q)
                    &&& self.added().len() > 0 ==> forall|i: int|
                        0 <= i < crate::table::file_metas(f@).len() - 1 ==> key_lt(
                            #[trigger] crate::table::file_metas(f@)[i].2,
                            crate::table::file_metas(f@)[i + 1].1,
                        )
                    &&& self.added().len() > 0 ==> crate::table::file_metas(f@)[0].1
                        == self.added()[0].0 && crate::table::file_metas(f@).last().2
                        == self.added().last().0
                    &&& b.encoding() == f@.subrange(crate::table::bloom_offset_of(f@), f@.len() - 4)
                    &&& forall|i: int| 0 <= i < self.added().len() ==> b.contains(
                        fingerprint_of(#[trigger] self.added()[i].0),
                    )
                },
                Err(e) => e == LsmError::TooLarge,
            },
            r is Err <==> self.index_end() + 4 > 0xFFFF_FFFF,
    {
        let ghost added0 = self.added();
        let ghost end0 = self.index_end();
        let mut this = self;
        this.finish_block();
        let ghost encs = this.encs@;
        let ghost blocks = this.blocks@;
        let ghost ms = metas_view(this.meta@);
        proof {
            lemma_concat_append(blocks, Seq::empty());
            assert(blocks + Seq::<Seq<Entry>>::empty() =~= blocks);
            assert(this.builder.entries() =~= Seq::<Entry>::empty());
            assert(added0 =~= concat(blocks));
        }
        let meta_offset = this.data.len();
        if meta_offset > 0xFFFF_FFFF {
            return Err(LsmError::TooLarge);
        }
        let mut data = this.data;
        let ghost d = data@;
        proof {
            this.lemma_metas_encodable();
        }
        BlockMeta::encode_block_meta(this.meta.as_slice(), &mut data);
        assert(data@ == d + crate::meta::metas_bytes(ms));
        if data.len() > 0xFFFF_FFFF - 4 {
            return Err(LsmError::TooLarge);
        }
        put_u32(&mut data, meta_offset as u32);
        let bloom = Bloom::build_from_key_hashes(this.key_hashes.as_slice(), BLOOM_BITS_PER_KEY);
        let bloom_offset = data.len();
        bloom.encode(&mut data);
        put_u32(&mut data, bloom_offset as u32);
        assert(data@ =~= table_file(encs, ms, bloom.encoding()));
        proof {
            assert forall|i: int| 0 <= i < encs.len() implies meta_encodable(#[trigger] ms[i]) by {
                assert(ms[i] == this.meta@[i]@);
            }
            lemma_layout_ok(encs, blocks, ms, bloom, data@);
            assert(encs.take(0) =~= Seq::<Seq<u8>>::empty());
            assert(ms[0].0 == 0);
            lemma_finished_metas(blocks, ms);
            lemma_hashes_contained(bloom, this.key_hashes@, added0);
            assert(this.key_hashes@ =~= key_hashes_of(added0));
        }
        Ok((data, bloom))
    }

    /// Finishes the last block and lays out the table file: blocks, meta index, its offset,
    /// Bloom filter, its offset; then opens it. Fails when the offsets would not fit 32 bits.
    pub fn build(self, id: usize) -> (r: Result<crate::table::SsTable, LsmError>)
        requires
            self.wf(),
        ensures
            match r {
                Ok(t) => {
                    &&& t.wf()
                    &&& crate::table::file_ok(t.file_view())
                    &&& crate::table::file_entries(t.file_view()) == self.added()
                    &&& t.entries() == self.added()
                    &&& sorted_entries(t.entries())
                    &&& t.index_matches()
                    &&& crate::table::file_index_matches(t.file_view())
                    &&& t.metas()[0].0 == 0
                    &&& t.bloom_view() matches Some(b) && {
                        &&& t.file_view() == table_file(file_blocks(t.file_view()), t.metas(), b.encoding())
                        &&& b.k == crate::bloom::probe_count(BLOOM_BITS_PER_KEY as nat)
                        &&& b.filter@.len() == crate::bloom::filter_bytes(self.added().len(), BLOOM_BITS_PER_KEY as nat)
                        &&& forall|q: nat| q < b.nbits() ==> #[trigger] crate::bloom::bit_set(b.filter@, q)
                            == crate::bloom::probed(key_hashes_of(self.added()), b.k as nat, b.nbits(), q)
                    }
                    &&& self.added().len() > 0 ==> forall|i: int|
                        0 <= i < t.num_blocks() - 1 ==> key_lt(#[trigger] t.metas()[i].2, t.metas()[i + 1].1)
                    &&& self.added().len() > 0 ==> t.first_key_view() == self.added()[0].0
                        && t.last_key_view() == self.added().last().0
                    &&& t.id_view() == id
                    &&& t.bloom_view() matches Some(b) && forall|i: int|
                        0 <= i < self.added().len() ==> b.contains(
                            fingerprint_of(#[trigger] self.added()[i].0),
                        )
                },
                Err(e) => e == LsmError::TooLarge,
            },
            r is Err <==> self.index_end() + 4 > 0xFFFF_FFFF,
    {
        let ghost added0 = self.added();
        proof {
            self.lemma_added_sorted();
        }
        let (data, bloom) = match self.lay_out() {
            Ok(x) => x,
            Err(e) => {
                return Err(e);
            },
        };
        let t = crate::table::SsTable::open(id, data);
        proof {
            if let Ok(tt) = &t {
                tt.lemma_recorded_fields();
                if let Some(b) = tt.bloom_view() {
                    lemma_same_bloom(b, bloom);
                }
            }
        }
        t
    }
}

} // verus!
