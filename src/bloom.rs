//! A Bloom filter over 32-bit key fingerprints.
use vstd::prelude::*;
use crate::error::LsmError;
use crate::codec::{copy_range, put_bytes};

verus! {

/// The step of the double hashing: the fingerprint rotated by 15 bits.
pub open spec fn delta(h: u32) -> u32 {
    (h >> 17u32) | (h << 15u32)
}

/// The `i`-th probe hash of fingerprint `h`: `h + i·delta(h)` modulo 2^32.
pub open spec fn probe(h: u32, i: nat) -> u32
    decreases i,
{
    if i == 0 {
        h
    } else {
        ((probe(h, (i - 1) as nat) as nat + delta(h) as nat) % 0x1_0000_0000) as u32
    }
}

/// Bit `p` of the bit array `f` (least significant bit of each byte first).
pub open spec fn bit_set(f: Seq<u8>, p: nat) -> bool {
    (f[(p / 8) as int] >> ((p % 8) as u8)) & 1u8 == 1u8
}

/// A Bloom filter: a bit array and a probe count.
pub struct Bloom {
    pub filter: Vec<u8>,
    pub k: u8,
}

/// Most bits a filter holds.
pub const MAX_BITS: u64 = 0x8000_0000;

impl Bloom {
    pub open spec fn wf(&self) -> bool {
        0 < self.filter@.len() && self.filter@.len() * 8 <= MAX_BITS
    }

    pub open spec fn nbits(&self) -> nat {
        self.filter@.len() * 8
    }

    /// Every probed bit of `h` is set; a filter with more than 30 probes admits every key.
    pub open spec fn contains(&self, h: u32) -> bool {
        self.k > 30 || forall|i: nat| i < self.k ==> #[trigger] bit_set(
            self.filter@,
            probe(h, i) as nat % self.nbits(),
        )
    }

    /// `filter ‖ k`.
    pub open spec fn encoding(&self) -> Seq<u8> {
        self.filter@.push(self.k)
    }

    /// Builds a filter holding every fingerprint of `keys`, with `round(bits_per_key · ln 2)`
    /// probes clamped to `[1, 30]`, over at least 64 bits.
    pub fn build_from_key_hashes(keys: &[u32], bits_per_key: usize) -> (r: Bloom)
        ensures
            r.wf(),
            r.k == probe_count(bits_per_key as nat),
            r.filter@.len() == filter_bytes(keys@.len(), bits_per_key as nat),
            forall|q: nat| q < r.nbits() ==> #[trigger] bit_set(r.filter@, q) == probed(keys@, r.k as nat, r.nbits(), q),
            forall|j: int| 0 <= j < keys@.len() ==> r.contains(#[trigger] keys@[j]),
    {
        let k: u8 = if bits_per_key >= 44 {
            30
        } else {
            let x = ((bits_per_key * 693 + 500) / 1000) as u8;
            if x < 1 { 1 } else { x }
        };
        let n = keys.len() as u64;
        let b = bits_per_key as u64;
        let want: u64 = if b == 0 {
            0
        } else if n > MAX_BITS / b {
            assert(n * b > MAX_BITS) by (nonlinear_arith)
                requires
                    b > 0,
                    n > MAX_BITS / b,
            ;
            MAX_BITS
        } else {
            assert(n * b <= MAX_BITS) by (nonlinear_arith)
                requires
                    b > 0,
                    n <= MAX_BITS / b,
            ;
            n * b
        };
        let want = if want < 64 { 64 } else { want };
        let nbytes = ((want + 7) / 8) as usize;
        let mut filter: Vec<u8> = Vec::with_capacity(nbytes);
        let mut i: usize = 0;
        while i < nbytes
            invariant
                i <= nbytes,
                filter@.len() == i,
                forall|j: int| 0 <= j < i ==> filter@[j] == 0,
            decreases nbytes - i,
        {
            filter.push(0);
            i = i + 1;
        }
        let mut bloom = Bloom { filter, k };
        let nbits = (nbytes as u64) * 8;
        proof {
            assert forall|q: nat| q < bloom.nbits() implies #[trigger] bit_set(bloom.filter@, q) == probed(keys@.take(0), k as nat, bloom.nbits(), q) by {
                let x = bloom.filter@[(q / 8) as int];
                let t = (q % 8) as u8;
                assert(x == 0);
                assert((x >> t) & 1u8 == 0u8) by (bit_vector)
                    requires
                        x == 0u8,
                ;
            }
        }
        let mut j: usize = 0;
        while j < keys.len()
            invariant
                bloom.wf(),
                bloom.k == k,
                k <= 30,
                nbits == bloom.nbits(),
                j <= keys@.len(),
                forall|jj: int| 0 <= jj < j ==> bloom.contains(#[trigger] keys@[jj]),
                forall|q: nat| q < bloom.nbits() ==> #[trigger] bit_set(bloom.filter@, q) == probed(keys@.take(j as int), k as nat, bloom.nbits(), q),
            decreases keys@.len() - j,
        {
            let h = keys[j];
            let d = (h >> 17u32) | (h << 15u32);
            let mut hh = h;
            let mut p: u8 = 0;
            while p < k
                invariant
                    bloom.wf(),
                    bloom.k == k,
                    k <= 30,
                    nbits == bloom.nbits(),
                    j < keys@.len(),
                    h == keys@[j as int],
                    d == delta(h),
                    p <= k,
                    hh == probe(h, p as nat),
                    forall|jj: int| 0 <= jj < j ==> bloom.contains(#[trigger] keys@[jj]),
                    forall|q: nat| q < p ==> #[trigger] bit_set(bloom.filter@, probe(h, q) as nat % bloom.nbits()),
                    forall|q: nat| q < bloom.nbits() ==> #[trigger] bit_set(bloom.filter@, q) == (probed(keys@.take(j as int), k as nat, bloom.nbits(), q)
                        || probed_by(h, p as nat, bloom.nbits(), q)),
                decreases k - p,
            {
                let pos = (hh as u64) % nbits;
                let ghost before = bloom.filter@;
                bloom.set_bit(pos);
                proof {
                    lemma_probed_by_step(h, p as nat, bloom.nbits());
                    assert forall|q: nat| q < p implies #[trigger] bit_set(bloom.filter@, probe(h, q) as nat % bloom.nbits()) by {
                        assert(bit_set(before, probe(h, q) as nat % bloom.nbits()));
                    }
                }
                hh = hh.wrapping_add(d);
                p = p + 1;
            }
            proof {
                lemma_probed_extend(keys@, j as int, k as nat, bloom.nbits());
                assert forall|jj: int| 0 <= jj < j + 1 implies bloom.contains(#[trigger] keys@[jj]) by {
                    if jj < j {
                        assert(bloom.contains(keys@[jj]));
                    }
                }
            }
            j = j + 1;
        }
        assert(keys@.take(keys@.len() as int) =~= keys@);
        bloom
    }

    fn set_bit(&mut self, pos: u64)
        requires
            old(self).wf(),
            pos < old(self).nbits(),
        ensures
            final(self).wf(),
            final(self).k == old(self).k,
            final(self).nbits() == old(self).nbits(),
            bit_set(final(self).filter@, pos as nat),
            forall|q: nat|
                q < old(self).nbits() ==> #[trigger] bit_set(final(self).filter@, q) == (bit_set(
                    old(self).filter@,
                    q,
                ) || q == pos),
    {
        let byte = (pos / 8) as usize;
        let bit = (pos % 8) as u8;
        let x = self.filter[byte];
        let y = x | (1u8 << bit);
        self.filter.set(byte, y);
        proof {
            assert((y >> bit) & 1u8 == 1u8) by (bit_vector)
                requires
                    y == x | (1u8 << bit),
                    bit < 8,
            ;
            assert forall|t: u8| t < 8 && (x >> t) & 1u8 == 1u8 implies (y >> t) & 1u8 == 1u8 by {
                assert((y >> t) & 1u8 == 1u8) by (bit_vector)
                    requires
                        y == x | (1u8 << bit),
                        bit < 8,
                        t < 8,
                        (x >> t) & 1u8 == 1u8,
                ;
            }
            assert forall|t: u8| t < 8 && t != bit implies (y >> t) & 1u8 == (x >> t) & 1u8 by {
                assert((y >> t) & 1u8 == (x >> t) & 1u8) by (bit_vector)
                    requires
                        y == x | (1u8 << bit),
                        bit < 8,
                        t < 8,
                        t != bit,
                ;
            }
            assert forall|q: nat| q < old(self).nbits() implies #[trigger] bit_set(self.filter@, q) == (
            bit_set(old(self).filter@, q) || q == pos) by {
                if q / 8 == byte as nat {
                    let t = (q % 8) as u8;
                    assert(self.filter@[byte as int] == y);
                    if q != pos as nat {
                        assert(t != bit);
                    }
                } else {
                    assert(self.filter@[(q / 8) as int] == old(self).filter@[(q / 8) as int]);
                }
            }
        }
    }

    /// Tests a fingerprint: false means that no key with it was added.
    pub fn may_contain(&self, h: u32) -> (r: bool)
        requires
            self.wf(),
        ensures
            r == self.contains(h),
    {
        if self.k > 30 {
            return true;
        }
        let nbits = (self.filter.len() as u64) * 8;
        let d = (h >> 17u32) | (h << 15u32);
        let mut hh = h;
        let mut p: u8 = 0;
        while p < self.k
            invariant
                self.wf(),
                self.k <= 30,
                nbits == self.nbits(),
                d == delta(h),
                p <= self.k,
                hh == probe(h, p as nat),
                forall|q: nat| q < p ==> #[trigger] bit_set(self.filter@, probe(h, q) as nat % self.nbits()),
            decreases self.k - p,
        {
            let pos = (hh as u64) % nbits;
            let byte = (pos / 8) as usize;
            let bit = (pos % 8) as u8;
            if (self.filter[byte] >> bit) & 1u8 != 1u8 {
                assert(!bit_set(self.filter@, probe(h, p as nat) as nat % self.nbits()));
                return false;
            }
            hh = hh.wrapping_add(d);
            p = p + 1;
        }
        true
    }

    /// Appends the encoding.
    pub fn encode(&self, buf: &mut Vec<u8>)
        ensures
            final(buf)@ == old(buf)@ + self.encoding(),
    {
        put_bytes(buf, self.filter.as_slice());
        buf.push(self.k);
        assert(final(buf)@ =~= old(buf)@ + self.encoding());
    }

    /// Decodes `filter ‖ k`.
    pub fn decode(buf: &[u8]) -> (r: Result<Bloom, LsmError>)
        ensures
            match r {
                Ok(b) => b.wf() && b.encoding() == buf@,
                Err(e) => e == LsmError::CorruptFooter && !bloom_bytes_ok(buf@),
            },
    {
        if buf.len() < 2 || buf.len() - 1 > (MAX_BITS / 8) as usize {
            return Err(LsmError::CorruptFooter);
        }
        let filter = copy_range(buf, 0, buf.len() - 1);
        let k = buf[buf.len() - 1];
        let b = Bloom { filter, k };
        assert(b.encoding() =~= buf@);
        Ok(b)
    }
}

/// `s` is the encoding of a filter of at least one byte.
pub open spec fn bloom_bytes_ok(s: Seq<u8>) -> bool {
    2 <= s.len() && (s.len() - 1) * 8 <= MAX_BITS
}

/// Bit `q` is one that `h` probes among the first `k`, in a filter of `nbits` bits.
pub open spec fn probed_by(h: u32, k: nat, nbits: nat, q: nat) -> bool {
    exists|i: nat| i < k && #[trigger] probe(h, i) as nat % nbits == q
}

/// Bit `q` is one that some fingerprint of `keys` probes.
pub open spec fn probed(keys: Seq<u32>, k: nat, nbits: nat, q: nat) -> bool {
    exists|j: int| 0 <= j < keys.len() && #[trigger] probed_by(keys[j], k, nbits, q)
}

proof fn lemma_probed_by_step(h: u32, p: nat, nbits: nat)
    ensures
        forall|q: nat|
            #[trigger] probed_by(h, p + 1, nbits, q) == (probed_by(h, p, nbits, q) || q == probe(h, p) as nat
                % nbits),
{
    assert forall|q: nat| #[trigger] probed_by(h, p + 1, nbits, q) == (probed_by(h, p, nbits, q) || q == probe(h, p) as nat
        % nbits) by {
        if probed_by(h, p + 1, nbits, q) {
            let i = choose|i: nat| i < p + 1 && #[trigger] probe(h, i) as nat % nbits == q;
            if i < p {
                assert(probed_by(h, p, nbits, q));
            }
        }
        if probed_by(h, p, nbits, q) {
            let i = choose|i: nat| i < p && #[trigger] probe(h, i) as nat % nbits == q;
            assert(probe(h, i) as nat % nbits == q);
        }
        if q == probe(h, p) as nat % nbits {
            assert(probe(h, p) as nat % nbits == q);
        }
    }
}

proof fn lemma_probed_extend(keys: Seq<u32>, j: int, k: nat, nbits: nat)
    requires
        0 <= j < keys.len(),
    ensures
        forall|q: nat|
            #[trigger] probed(keys.take(j + 1), k, nbits, q) == (probed(keys.take(j), k, nbits, q)
                || probed_by(keys[j], k, nbits, q)),
{
    assert forall|q: nat| #[trigger] probed(keys.take(j + 1), k, nbits, q) == (probed(keys.take(j), k, nbits, q)
        || probed_by(keys[j], k, nbits, q)) by {
        let a = keys.take(j + 1);
        let b = keys.take(j);
        if probed(a, k, nbits, q) {
            let w = choose|w: int| 0 <= w < a.len() && #[trigger] probed_by(a[w], k, nbits, q);
            if w < j {
                assert(b[w] == a[w]);
                assert(probed_by(b[w], k, nbits, q));
            } else {
                assert(a[w] == keys[j]);
            }
        }
        if probed(b, k, nbits, q) {
            let w = choose|w: int| 0 <= w < b.len() && #[trigger] probed_by(b[w], k, nbits, q);
            assert(a[w] == b[w]);
            assert(probed_by(a[w], k, nbits, q));
        }
        if probed_by(keys[j], k, nbits, q) {
            assert(a[j] == keys[j]);
            assert(probed_by(a[j], k, nbits, q));
        }
    }
}

/// Bytes of the filter for `n` keys: `n · bits_per_key` bits, at least 64 and at most
/// `MAX_BITS`, rounded up to whole bytes.
pub open spec fn filter_bytes(n: nat, bits_per_key: nat) -> nat {
    let want = if n * bits_per_key > MAX_BITS {
        MAX_BITS as nat
    } else {
        n * bits_per_key
    };
    let want = if want < 64 {
        64
    } else {
        want
    };
    ((want + 7) / 8) as nat
}

/// `round(bits_per_key · ln 2)` clamped to `[1, 30]`.
pub open spec fn probe_count(bits_per_key: nat) -> u8 {
    if bits_per_key >= 44 {
        30
    } else if (bits_per_key * 693 + 500) / 1000 < 1 {
        1
    } else {
        ((bits_per_key * 693 + 500) / 1000) as u8
    }
}

} // verus!
