//! Blocks: sorted runs of key-value entries with an offset array.
use vstd::prelude::*;
use crate::codec::{get_u16, put_u16, read_u16, u16_bytes, lemma_read_u16_bytes};
use crate::error::LsmError;
use crate::key::key_lt;
pub use crate::block_builder::BlockBuilder;
pub use crate::block_iterator::BlockIterator;

verus! {

/// A key-value pair of byte strings.
pub type Entry = (Seq<u8>, Seq<u8>);

/// The encoding of one entry: `key_len ‖ key ‖ value_len ‖ value`.
pub open spec fn entry_bytes(k: Seq<u8>, v: Seq<u8>) -> Seq<u8> {
    u16_bytes(k.len()) + k + u16_bytes(v.len()) + v
}

/// Length of the key of the entry at `off`.
pub open spec fn key_len_at(d: Seq<u8>, off: int) -> int {
    read_u16(d, off) as int
}

/// Length of the value of the entry at `off`.
pub open spec fn value_len_at(d: Seq<u8>, off: int) -> int {
    read_u16(d, off + 2 + key_len_at(d, off)) as int
}

/// One past the last byte of the entry at `off`.
pub open spec fn entry_end(d: Seq<u8>, off: int) -> int {
    off + 4 + key_len_at(d, off) + value_len_at(d, off)
}

/// The entry at `off` lies within `d`.
pub open spec fn entry_fits(d: Seq<u8>, off: int) -> bool {
    0 <= off && off + 2 <= d.len() && off + 4 + key_len_at(d, off) <= d.len() && entry_end(d, off)
        <= d.len()
}

pub open spec fn entry_at(d: Seq<u8>, off: int) -> Entry {
    (
        d.subrange(off + 2, off + 2 + key_len_at(d, off)),
        d.subrange(off + 4 + key_len_at(d, off), entry_end(d, off)),
    )
}

/// Where the entry after the `i`-th must start: the next offset, or the end of the data.
pub open spec fn next_start(d: Seq<u8>, offs: Seq<u16>, i: int) -> int {
    if i + 1 < offs.len() {
        offs[i + 1] as int
    } else {
        d.len() as int
    }
}

/// The data region and the offsets describe entries laid end to end.
#[verifier::opaque]
pub open spec fn layout_ok(d: Seq<u8>, offs: Seq<u16>) -> bool {
    &&& offs.len() < 0x1_0000
    &&& offs.len() == 0 ==> d.len() == 0
    &&& offs.len() > 0 ==> offs[0] == 0
    &&& forall|i: int|
        0 <= i < offs.len() ==> entry_fits(d, #[trigger] offs[i] as int) && entry_end(d, offs[i] as int)
            == next_start(d, offs, i)
}

/// The big-endian encoding of an offset array.
pub open spec fn offsets_bytes(o: Seq<u16>) -> Seq<u8>
    decreases o.len(),
{
    if o.len() == 0 {
        Seq::empty()
    } else {
        offsets_bytes(o.drop_last()) + u16_bytes(o.last() as nat)
    }
}

/// The entry count held by the trailer of an encoded block.
pub open spec fn trailer_count(s: Seq<u8>) -> int {
    read_u16(s, s.len() - 2) as int
}

/// Where the offset array of an encoded block starts.
pub open spec fn offsets_start(s: Seq<u8>) -> int {
    s.len() - 2 - 2 * trailer_count(s)
}

pub open spec fn decoded_offsets(s: Seq<u8>) -> Seq<u16> {
    Seq::new(trailer_count(s) as nat, |i: int| read_u16(s, offsets_start(s) + 2 * i) as u16)
}

pub open spec fn decoded_data(s: Seq<u8>) -> Seq<u8> {
    s.take(offsets_start(s))
}

/// `s` is the encoding of a well-formed block.
pub open spec fn block_bytes_ok(s: Seq<u8>) -> bool {
    s.len() >= 2 && offsets_start(s) >= 0 && layout_ok(decoded_data(s), decoded_offsets(s))
}

/// A block is the smallest unit of read and caching: sorted key-value entries.
pub struct Block {
    pub data: Vec<u8>,
    pub offsets: Vec<u16>,
}

impl Block {
    pub open spec fn wf(&self) -> bool {
        layout_ok(self.data@, self.offsets@)
    }

    pub open spec fn len(&self) -> nat {
        self.offsets@.len()
    }

    /// The entries, in the order of the offsets.
    pub open spec fn entries(&self) -> Seq<Entry> {
        entries_of(self.data@, self.offsets@)
    }

    pub open spec fn sorted(&self) -> bool {
        sorted_entries(self.entries())
    }

    /// `data ‖ offsets ‖ entry_count`.
    pub open spec fn encoding(&self) -> Seq<u8> {
        self.data@ + offsets_bytes(self.offsets@) + u16_bytes(self.offsets@.len())
    }

    /// Encodes the block.
    pub fn encode(&self) -> (r: Vec<u8>)
        requires
            self.wf(),
        ensures
            r@ == self.encoding(),
    {
        proof {
            reveal(layout_ok);
        }
        let mut buf = crate::codec::copy_range(self.data.as_slice(), 0, self.data.len());
        assert(self.data@.subrange(0, self.data@.len() as int) =~= self.data@);
        let mut i: usize = 0;
        while i < self.offsets.len()
            invariant
                i <= self.offsets@.len(),
                buf@ == self.data@ + offsets_bytes(self.offsets@.take(i as int)),
            decreases self.offsets@.len() - i,
        {
            put_u16(&mut buf, self.offsets[i]);
            i = i + 1;
            assert(self.offsets@.take(i as int).drop_last() =~= self.offsets@.take(i - 1));
        }
        assert(self.offsets@.take(i as int) =~= self.offsets@);
        put_u16(&mut buf, self.offsets.len() as u16);
        buf
    }

    /// Decodes an encoded block, checking that its entries lie end to end.
    pub fn decode(data: &[u8]) -> (r: Result<Block, LsmError>)
        ensures
            match r {
                Ok(b) => block_bytes_ok(data@) && b.data@ == decoded_data(data@) && b.offsets@
                    == decoded_offsets(data@),
                Err(e) => !block_bytes_ok(data@) && e == LsmError::CorruptBlock,
            },
    {
        if data.len() < 2 {
            return Err(LsmError::CorruptBlock);
        }
        let n = get_u16(data, data.len() - 2) as usize;
        if 2 * n + 2 > data.len() {
            return Err(LsmError::CorruptBlock);
        }
        let start = data.len() - 2 - 2 * n;
        let mut offsets: Vec<u16> = Vec::with_capacity(n);
        let mut i: usize = 0;
        let mut pos: usize = start;
        let ghost want = decoded_offsets(data@);
        let len = data.len();
        while i < n
            invariant
                len == data@.len(),
                n == trailer_count(data@),
                start == offsets_start(data@),
                start + 2 * n + 2 == data@.len(),
                i <= n,
                pos == start + 2 * i,
                want == decoded_offsets(data@),
                want.len() == n,
                offsets@ == want.take(i as int),
            decreases n - i,
        {
            let x = get_u16(data, pos);
            assert(want[i as int] == x);
            offsets.push(x);
            i = i + 1;
            pos = pos + 2;
            assert(offsets@ =~= want.take(i as int));
        }
        assert(offsets@ =~= want);
        let d = crate::codec::copy_range(data, 0, start);
        if !check_layout(d.as_slice(), offsets.as_slice()) {
            return Err(LsmError::CorruptBlock);
        }
        Ok(Block { data: d, offsets })
    }
}

/// The entries that a data region and its offsets describe.
pub open spec fn entries_of(d: Seq<u8>, offs: Seq<u16>) -> Seq<Entry> {
    Seq::new(offs.len(), |i: int| entry_at(d, offs[i] as int))
}

/// Keys strictly ascend.
#[verifier::opaque]
pub open spec fn sorted_entries(es: Seq<Entry>) -> bool {
    forall|i: int, j: int| 0 <= i < j < es.len() ==> key_lt(#[trigger] es[i].0, #[trigger] es[j].0)
}

/// Decides `layout_ok`.
pub fn check_layout(d: &[u8], offs: &[u16]) -> (r: bool)
    ensures
        r == layout_ok(d@, offs@),
{
    reveal(layout_ok);
    if offs.len() >= 0x1_0000 {
        return false;
    }
    if offs.len() == 0 {
        return d.len() == 0;
    }
    if offs[0] != 0 {
        return false;
    }
    let mut i: usize = 0;
    while i < offs.len()
        invariant
            i <= offs@.len(),
            forall|j: int|
                0 <= j < i ==> entry_fits(d@, #[trigger] offs@[j] as int) && entry_end(d@, offs@[j] as int)
                    == next_start(d@, offs@, j),
        decreases offs@.len() - i,
    {
        proof {
            reveal(layout_ok);
        }
        let off = offs[i] as usize;
        if off + 2 > d.len() {
            return false;
        }
        let klen = get_u16(d, off) as usize;
        if off + 4 + klen > d.len() {
            return false;
        }
        let vlen = get_u16(d, off + 2 + klen) as usize;
        let end = off + 4 + klen + vlen;
        if end > d.len() {
            return false;
        }
        let next = if i + 1 < offs.len() {
            offs[i + 1] as usize
        } else {
            d.len()
        };
        if end != next {
            return false;
        }
        i = i + 1;
    }
    proof {
        reveal(layout_ok);
    }
    true
}

} // verus!

verus! {

proof fn lemma_offsets_bytes(o: Seq<u16>)
    ensures
        offsets_bytes(o).len() == 2 * o.len(),
        forall|i: int| 0 <= i < o.len() ==> read_u16(offsets_bytes(o), 2 * i) == o[i] as nat,
    decreases o.len(),
{
    if o.len() > 0 {
        let p = o.drop_last();
        lemma_offsets_bytes(p);
        let s = offsets_bytes(o);
        assert(s == offsets_bytes(p) + u16_bytes(o.last() as nat));
        assert forall|i: int| 0 <= i < o.len() implies read_u16(s, 2 * i) == o[i] as nat by {
            if i < p.len() {
                assert(s[2 * i] == offsets_bytes(p)[2 * i]);
                assert(s[2 * i + 1] == offsets_bytes(p)[2 * i + 1]);
                assert(o[i] == p[i]);
            } else {
                lemma_read_u16_bytes(o.last() as nat, offsets_bytes(p), Seq::empty());
                assert(offsets_bytes(p) + u16_bytes(o.last() as nat) + Seq::<u8>::empty() =~= s);
            }
        }
    }
}

/// Decoding the encoding of a well-formed block gives back its data and offsets.
pub proof fn lemma_block_round_trip(b: Block)
    requires
        b.wf(),
    ensures
        block_bytes_ok(b.encoding()),
        decoded_data(b.encoding()) == b.data@,
        decoded_offsets(b.encoding()) == b.offsets@,
{
    let s = b.encoding();
    reveal(layout_ok);
    lemma_encoding_parts(b.data@, b.offsets@);
    assert(decoded_data(s) == b.data@);
    assert(decoded_offsets(s) == b.offsets@);
}

proof fn lemma_encoding_parts(d: Seq<u8>, o: Seq<u16>)
    requires
        o.len() < 0x1_0000,
    ensures
        ({
            let s = d + offsets_bytes(o) + u16_bytes(o.len());
            &&& s.len() >= 2
            &&& trailer_count(s) == o.len()
            &&& offsets_start(s) == d.len()
            &&& decoded_data(s) == d
            &&& decoded_offsets(s) == o
        }),
{
    let n = o.len();
    let ob = offsets_bytes(o);
    let s = d + ob + u16_bytes(n);
    lemma_offsets_bytes(o);
    lemma_read_u16_bytes(n, d + ob, Seq::empty());
    assert(d + ob + u16_bytes(n) + Seq::<u8>::empty() =~= s);
    assert(decoded_data(s) =~= d);
    assert forall|i: int| 0 <= i < n implies #[trigger] decoded_offsets(s)[i] == o[i] by {
        let at = d.len() + 2 * i;
        assert(s[at] == ob[2 * i]);
        assert(s[at + 1] == ob[2 * i + 1]);
        assert(read_u16(ob, 2 * i) == o[i] as nat);
    }
    assert(decoded_offsets(s) =~= o);
}

} // verus!

verus! {

proof fn lemma_entry_extend(d: Seq<u8>, e: Seq<u8>, off: int)
    requires
        entry_fits(d, off),
    ensures
        entry_fits(d + e, off),
        key_len_at(d + e, off) == key_len_at(d, off),
        entry_end(d + e, off) == entry_end(d, off),
        entry_at(d + e, off) == entry_at(d, off),
{
    let d2 = d + e;
    assert(d2[off] == d[off]);
    assert(d2[off + 1] == d[off + 1]);
    let kl = key_len_at(d, off);
    assert(d2[off + 2 + kl] == d[off + 2 + kl]);
    assert(d2[off + 3 + kl] == d[off + 3 + kl]);
    assert(d2.subrange(off + 2, off + 2 + kl) =~= d.subrange(off + 2, off + 2 + kl));
    assert(d2.subrange(off + 4 + kl, entry_end(d, off)) =~= d.subrange(off + 4 + kl, entry_end(d, off)));
}

proof fn lemma_new_entry(d: Seq<u8>, k: Seq<u8>, v: Seq<u8>)
    requires
        k.len() < 0x1_0000,
        v.len() < 0x1_0000,
    ensures
        entry_fits(d + entry_bytes(k, v), d.len() as int),
        entry_end(d + entry_bytes(k, v), d.len() as int) == d.len() + entry_bytes(k, v).len(),
        entry_at(d + entry_bytes(k, v), d.len() as int) == (k, v),
{
    let e = entry_bytes(k, v);
    let d2 = d + e;
    let n = d.len() as int;
    lemma_read_u16_bytes(k.len(), d, k + u16_bytes(v.len()) + v);
    assert(d + u16_bytes(k.len()) + (k + u16_bytes(v.len()) + v) =~= d2);
    lemma_read_u16_bytes(v.len(), d + u16_bytes(k.len()) + k, v);
    assert(d + u16_bytes(k.len()) + k + u16_bytes(v.len()) + v =~= d2);
    assert(key_len_at(d2, n) == k.len());
    assert(d2.subrange(n + 2, n + 2 + k.len()) =~= k);
    assert(d2.subrange(n + 4 + k.len(), n + 4 + k.len() + v.len()) =~= v);
}

/// Appending an entry at the end of the data region and its start to the offsets keeps the
/// layout and appends the entry.
pub proof fn lemma_layout_push(d: Seq<u8>, offs: Seq<u16>, k: Seq<u8>, v: Seq<u8>)
    requires
        layout_ok(d, offs),
        d.len() < 0x1_0000,
        offs.len() + 1 < 0x1_0000,
        k.len() < 0x1_0000,
        v.len() < 0x1_0000,
    ensures
        layout_ok(d + entry_bytes(k, v), offs.push(d.len() as u16)),
        entries_of(d + entry_bytes(k, v), offs.push(d.len() as u16)) == entries_of(d, offs).push(
            (k, v),
        ),
{
    reveal(layout_ok);
    let e = entry_bytes(k, v);
    let d2 = d + e;
    let o2 = offs.push(d.len() as u16);
    lemma_new_entry(d, k, v);
    assert forall|i: int| 0 <= i < o2.len() implies entry_fits(d2, #[trigger] o2[i] as int)
        && entry_end(d2, o2[i] as int) == next_start(d2, o2, i) by {
        if i < offs.len() {
            assert(o2[i] == offs[i]);
            lemma_entry_extend(d, e, offs[i] as int);
            assert(entry_fits(d, offs[i] as int));
        }
    }
    assert forall|i: int| 0 <= i < o2.len() implies #[trigger] entries_of(d2, o2)[i] == entries_of(d, offs).push((k, v))[i] by {
        if i < offs.len() {
            assert(o2[i] == offs[i]);
            lemma_entry_extend(d, e, offs[i] as int);
        }
    }
    assert(entries_of(d2, o2) =~= entries_of(d, offs).push((k, v)));
}

} // verus!

verus! {

pub proof fn lemma_offsets_len(o: Seq<u16>)
    ensures
        offsets_bytes(o).len() == 2 * o.len(),
{
    lemma_offsets_bytes(o);
}

} // verus!
