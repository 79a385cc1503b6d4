//! The block-meta index of a sorted string table.
use vstd::prelude::*;
use crate::codec::{
    copy_range, get_u16, get_u32, lemma_read_u16_bytes, lemma_read_u32_bytes, put_bytes, put_u16,
    put_u32, read_u16, read_u32, u16_bytes, u32_bytes,
};
use crate::error::LsmError;

verus! {

/// A block's offset in the file, first key and last key.
pub type MetaView = (nat, Seq<u8>, Seq<u8>);

/// Where a block lies in its table and which keys it spans.
pub struct BlockMeta {
    pub offset: usize,
    pub first_key: Vec<u8>,
    pub last_key: Vec<u8>,
}

impl View for BlockMeta {
    type V = MetaView;

    open spec fn view(&self) -> MetaView {
        (self.offset as nat, self.first_key@, self.last_key@)
    }
}

pub open spec fn metas_view(ms: Seq<BlockMeta>) -> Seq<MetaView> {
    ms.map_values(|m: BlockMeta| m@)
}

/// The fields fit the widths of the record.
pub open spec fn meta_encodable(m: MetaView) -> bool {
    m.0 < 0x1_0000_0000 && m.1.len() < 0x1_0000 && m.2.len() < 0x1_0000
}

/// `offset:u32 ‖ first_key_len:u16 ‖ first_key ‖ last_key_len:u16 ‖ last_key`.
pub open spec fn meta_record(m: MetaView) -> Seq<u8> {
    u32_bytes(m.0) + u16_bytes(m.1.len()) + m.1 + u16_bytes(m.2.len()) + m.2
}

/// The records one after another.
pub open spec fn metas_bytes(ms: Seq<MetaView>) -> Seq<u8>
    decreases ms.len(),
{
    if ms.len() == 0 {
        Seq::empty()
    } else {
        meta_record(ms[0]) + metas_bytes(ms.drop_first())
    }
}

pub open spec fn first_len(s: Seq<u8>) -> int {
    read_u16(s, 4) as int
}

pub open spec fn record_len(s: Seq<u8>) -> int {
    8 + first_len(s) + read_u16(s, 6 + first_len(s)) as int
}

/// A whole record stands at the start of `s`.
pub open spec fn record_ok(s: Seq<u8>) -> bool {
    6 <= s.len() && 8 + first_len(s) <= s.len() && record_len(s) <= s.len()
}

pub open spec fn record_at(s: Seq<u8>) -> MetaView {
    (
        read_u32(s, 0),
        s.subrange(6, 6 + first_len(s)),
        s.subrange(8 + first_len(s), record_len(s)),
    )
}

/// The records of `s`, or `None` when it ends inside one.
pub open spec fn parse_metas(s: Seq<u8>) -> Option<Seq<MetaView>>
    decreases s.len(),
{
    if s.len() == 0 {
        Some(Seq::empty())
    } else if !record_ok(s) {
        None
    } else {
        match parse_metas(s.skip(record_len(s))) {
            Some(r) => Some(seq![record_at(s)] + r),
            None => None,
        }
    }
}

impl BlockMeta {
    /// Appends the records of `block_meta`.
    pub fn encode_block_meta(block_meta: &[BlockMeta], buf: &mut Vec<u8>)
        requires
            forall|i: int| 0 <= i < block_meta@.len() ==> meta_encodable(#[trigger] block_meta@[i]@),
        ensures
            final(buf)@ == old(buf)@ + metas_bytes(metas_view(block_meta@)),
    {
        let ghost ms = metas_view(block_meta@);
        let mut i: usize = 0;
        assert(ms.skip(0) =~= ms);
        while i < block_meta.len()
            invariant
                ms == metas_view(block_meta@),
                i <= block_meta@.len(),
                forall|i: int| 0 <= i < block_meta@.len() ==> meta_encodable(#[trigger] block_meta@[i]@),
                buf@ + metas_bytes(ms.skip(i as int)) == old(buf)@ + metas_bytes(ms),
            decreases block_meta@.len() - i,
        {
            let m = &block_meta[i];
            let ghost before = buf@;
            assert(ms[i as int] == m@);
            put_u32(buf, m.offset as u32);
            put_u16(buf, m.first_key.len() as u16);
            put_bytes(buf, m.first_key.as_slice());
            put_u16(buf, m.last_key.len() as u16);
            put_bytes(buf, m.last_key.as_slice());
            assert(buf@ =~= before + meta_record(m@));
            assert(ms.skip(i as int).drop_first() =~= ms.skip(i + 1));
            i = i + 1;
        }
        assert(ms.skip(i as int) =~= Seq::<MetaView>::empty());
        assert(buf@ + Seq::<u8>::empty() =~= buf@);
    }

    /// Reads records until `buf` ends; fails when it ends inside one.
    pub fn decode_block_meta(buf: &[u8]) -> (r: Result<Vec<BlockMeta>, LsmError>)
        ensures
            match r {
                Ok(ms) => parse_metas(buf@) == Some(metas_view(ms@)),
                Err(e) => parse_metas(buf@) is None && e == LsmError::CorruptMeta,
            },
    {
        let mut out: Vec<BlockMeta> = Vec::new();
        let mut pos: usize = 0;
        let len = buf.len();
        assert(buf@.skip(0) =~= buf@);
        while pos < len
            invariant
                len == buf@.len(),
                pos <= len,
                parse_metas(buf@.skip(pos as int)) is None ==> parse_metas(buf@) is None,
                parse_metas(buf@.skip(pos as int)) matches Some(rest) ==> parse_metas(buf@) == Some(
                    metas_view(out@) + rest,
                ),
            decreases len - pos,
        {
            let ghost s = buf@.skip(pos as int);
            if len - pos < 6 {
                return Err(LsmError::CorruptMeta);
            }
            let offset = get_u32(buf, pos);
            let l1 = get_u16(buf, pos + 4) as usize;
            assert(read_u16(s, 4) == read_u16(buf@, pos + 4));
            assert(read_u32(s, 0) == read_u32(buf@, pos as int));
            if len - pos < 8 + l1 {
                return Err(LsmError::CorruptMeta);
            }
            let l2 = get_u16(buf, pos + 6 + l1) as usize;
            assert(read_u16(s, 6 + l1) == read_u16(buf@, pos + 6 + l1));
            if len - pos < 8 + l1 + l2 {
                return Err(LsmError::CorruptMeta);
            }
            let first_key = copy_range(buf, pos + 6, pos + 6 + l1);
            let last_key = copy_range(buf, pos + 8 + l1, pos + 8 + l1 + l2);
            let m = BlockMeta { offset: offset as usize, first_key, last_key };
            assert(m@ == record_at(s)) by {
                assert(s.subrange(6, 6 + l1) =~= buf@.subrange(pos + 6, pos + 6 + l1));
                assert(s.subrange(8 + l1, 8 + l1 + l2) =~= buf@.subrange(
                    pos + 8 + l1,
                    pos + 8 + l1 + l2,
                ));
            }
            let ghost old_out = metas_view(out@);
            out.push(m);
            assert(metas_view(out@) =~= old_out.push(m@));
            assert(s.skip(record_len(s)) =~= buf@.skip(pos + 8 + l1 + l2));
            pos = pos + 8 + l1 + l2;
            proof {
                let t = buf@.skip(pos as int);
                if let Some(rest) = parse_metas(t) {
                    assert(old_out + (seq![m@] + rest) =~= metas_view(out@) + rest);
                }
            }
        }
        assert(buf@.skip(pos as int) =~= Seq::<u8>::empty());
        assert(metas_view(out@) + Seq::<MetaView>::empty() =~= metas_view(out@));
        Ok(out)
    }
}

/// Decoding the records of encodable metas gives them back.
#[verifier::rlimit(50)]
pub proof fn lemma_meta_round_trip(ms: Seq<MetaView>)
    requires
        forall|i: int| 0 <= i < ms.len() ==> meta_encodable(#[trigger] ms[i]),
    ensures
        parse_metas(metas_bytes(ms)) == Some(ms),
    decreases ms.len(),
{
    if ms.len() > 0 {
        let m = ms[0];
        let t = ms.drop_first();
        assert forall|i: int| 0 <= i < t.len() implies meta_encodable(#[trigger] t[i]) by {
            assert(t[i] == ms[i + 1]);
        }
        lemma_meta_round_trip(t);
        assert(meta_encodable(ms[0]));
        let rest = metas_bytes(t);
        let s = metas_bytes(ms);
        let pre = u32_bytes(m.0) + u16_bytes(m.1.len()) + m.1;
        assert(s == meta_record(m) + rest);
        lemma_read_u32_bytes(m.0, Seq::empty(), u16_bytes(m.1.len()) + m.1 + u16_bytes(m.2.len()) + m.2 + rest);
        assert(Seq::<u8>::empty() + u32_bytes(m.0) + (u16_bytes(m.1.len()) + m.1 + u16_bytes(m.2.len()) + m.2 + rest) =~= s);
        lemma_read_u16_bytes(m.1.len(), u32_bytes(m.0), m.1 + u16_bytes(m.2.len()) + m.2 + rest);
        assert(u32_bytes(m.0) + u16_bytes(m.1.len()) + (m.1 + u16_bytes(m.2.len()) + m.2 + rest) =~= s);
        lemma_read_u16_bytes(m.2.len(), pre, m.2 + rest);
        assert(pre + u16_bytes(m.2.len()) + (m.2 + rest) =~= s);
        assert(first_len(s) == m.1.len());
        assert(record_len(s) == meta_record(m).len());
        assert(s.subrange(6, 6 + first_len(s)) =~= m.1);
        assert(s.subrange(8 + first_len(s), record_len(s)) =~= m.2);
        assert(s.skip(record_len(s)) =~= rest);
        assert(seq![m] + t =~= ms);
    }
}

} // verus!
