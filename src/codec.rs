//! Big-endian fixed-width integers and byte appends.
use vstd::prelude::*;

verus! {

/// The two big-endian bytes of `x`.
pub open spec fn u16_bytes(x: nat) -> Seq<u8> {
    seq![(x / 256) as u8, (x % 256) as u8]
}

/// The four big-endian bytes of `x`.
pub open spec fn u32_bytes(x: nat) -> Seq<u8> {
    seq![(x / 0x100_0000) as u8, ((x / 0x1_0000) % 256) as u8, ((x / 256) % 256) as u8, (x % 256) as u8]
}

/// The number held by two big-endian bytes at `at`.
pub open spec fn read_u16(s: Seq<u8>, at: int) -> nat {
    s[at] as nat * 256 + s[at + 1] as nat
}

/// The number held by four big-endian bytes at `at`.
pub open spec fn read_u32(s: Seq<u8>, at: int) -> nat {
    s[at] as nat * 0x100_0000 + s[at + 1] as nat * 0x1_0000 + s[at + 2] as nat * 256 + s[at + 3] as nat
}

pub proof fn lemma_read_u16_bytes(x: nat, pre: Seq<u8>, post: Seq<u8>)
    requires
        x < 0x1_0000,
    ensures
        read_u16(pre + u16_bytes(x) + post, pre.len() as int) == x,
{
    let s = pre + u16_bytes(x) + post;
    assert(s[pre.len() as int] == (x / 256) as u8);
    assert(s[pre.len() as int + 1] == (x % 256) as u8);
}

pub proof fn lemma_read_u32_bytes(x: nat, pre: Seq<u8>, post: Seq<u8>)
    requires
        x < 0x1_0000_0000,
    ensures
        read_u32(pre + u32_bytes(x) + post, pre.len() as int) == x,
{
    let s = pre + u32_bytes(x) + post;
    let n = pre.len() as int;
    assert(s[n] == (x / 0x100_0000) as u8);
    assert(s[n + 1] == ((x / 0x1_0000) % 256) as u8);
    assert(s[n + 2] == ((x / 256) % 256) as u8);
    assert(s[n + 3] == (x % 256) as u8);
    assert(x == (x / 0x100_0000) * 0x100_0000 + ((x / 0x1_0000) % 256) * 0x1_0000 + ((x / 256)
        % 256) * 256 + x % 256) by (nonlinear_arith)
        requires
            x < 0x1_0000_0000,
    ;
}

/// Appends the big-endian bytes of `x`.
pub fn put_u16(buf: &mut Vec<u8>, x: u16)
    ensures
        final(buf)@ == old(buf)@ + u16_bytes(x as nat),
{
    buf.push((x / 256) as u8);
    buf.push((x % 256) as u8);
    assert(final(buf)@ =~= old(buf)@ + u16_bytes(x as nat));
}

/// Appends the big-endian bytes of `x`.
pub fn put_u32(buf: &mut Vec<u8>, x: u32)
    ensures
        final(buf)@ == old(buf)@ + u32_bytes(x as nat),
{
    buf.push((x / 0x100_0000) as u8);
    buf.push(((x / 0x1_0000) % 256) as u8);
    buf.push(((x / 256) % 256) as u8);
    buf.push((x % 256) as u8);
    assert(final(buf)@ =~= old(buf)@ + u32_bytes(x as nat));
}

/// Reads two big-endian bytes at `at`.
pub fn get_u16(s: &[u8], at: usize) -> (r: u16)
    requires
        at + 2 <= s@.len(),
    ensures
        r as nat == read_u16(s@, at as int),
{
    (s[at] as u16) * 256 + s[at + 1] as u16
}

/// Reads four big-endian bytes at `at`.
pub fn get_u32(s: &[u8], at: usize) -> (r: u32)
    requires
        at + 4 <= s@.len(),
    ensures
        r as nat == read_u32(s@, at as int),
{
    (s[at] as u32) * 0x100_0000 + (s[at + 1] as u32) * 0x1_0000 + (s[at + 2] as u32) * 256
        + s[at + 3] as u32
}

/// Appends every byte of `s`.
pub fn put_bytes(buf: &mut Vec<u8>, s: &[u8])
    ensures
        final(buf)@ == old(buf)@ + s@,
{
    let mut i: usize = 0;
    while i < s.len()
        invariant
            i <= s@.len(),
            buf@ == old(buf)@ + s@.take(i as int),
        decreases s@.len() - i,
    {
        buf.push(s[i]);
        i = i + 1;
        assert(buf@ =~= old(buf)@ + s@.take(i as int));
    }
    assert(s@.take(s@.len() as int) =~= s@);
}

/// A copy of `s[from..to]`.
pub fn copy_range(s: &[u8], from: usize, to: usize) -> (r: Vec<u8>)
    requires
        from <= to <= s@.len(),
    ensures
        r@ == s@.subrange(from as int, to as int),
{
    let mut r: Vec<u8> = Vec::with_capacity(to - from);
    let mut i: usize = from;
    while i < to
        invariant
            from <= i <= to <= s@.len(),
            r@ == s@.subrange(from as int, i as int),
        decreases to - i,
    {
        r.push(s[i]);
        i = i + 1;
        assert(r@ =~= s@.subrange(from as int, i as int));
    }
    r
}

} // verus!
