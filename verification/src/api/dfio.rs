//! Data-file streams: the length in front of a stored string and the extent of a
//! packed stream.
use vstd::prelude::*;
use crate::lz::{be32, be_u32};

verus! {

/// The little-endian value of the first `n` bytes of `b`.
pub open spec fn le_value(b: Seq<u8>, n: nat) -> nat
    decreases n,
{
    if n == 0 {
        0
    } else {
        le_value(b, (n - 1) as nat) + (b[n - 1] as nat) * vstd::arithmetic::power2::pow2((8 * (n - 1)) as nat)
    }
}

/// The length of a stored string from its `n`-byte little-endian prefix: lengths
/// over 0x10000 read as 0.
pub open spec fn spec_string_len(b: Seq<u8>, n: nat) -> nat {
    if le_value(b, n) > 0x1_0000 { 0 } else { le_value(b, n) }
}

proof fn lemma_le_bound(b: Seq<u8>, n: nat)
    requires
        n <= b.len(),
    ensures
        le_value(b, n) < vstd::arithmetic::power2::pow2((8 * n) as nat),
    decreases n,
{
    vstd::arithmetic::power2::lemma2_to64();
    if n > 0 {
        lemma_le_bound(b, (n - 1) as nat);
        let p = vstd::arithmetic::power2::pow2((8 * (n - 1)) as nat);
        vstd::arithmetic::power2::lemma_pow2_adds((8 * (n - 1)) as nat, 8);
        assert(vstd::arithmetic::power2::pow2(8) == 256);
        assert(le_value(b, n) < p + (b[n - 1] as nat) * p);
        assert((b[n - 1] as nat) * p <= 255 * p) by (nonlinear_arith)
            requires
                b[n - 1] <= 255,
                p >= 0,
        ;
        assert(8 * (n - 1) + 8 == 8 * n);
    }
}

/// The length of a stored string from its prefix of `n` (at most 4) bytes (see
/// `spec_string_len`).
pub fn string_len(b: &[u8], n: usize) -> (r: u32)
    requires
        n <= 4,
        n <= b.len(),
    ensures
        r as nat == spec_string_len(b@, n as nat),
{
    let mut v: u64 = 0;
    let mut k: usize = 0;
    let mut scale: u64 = 1;
    proof {
        vstd::arithmetic::power2::lemma2_to64();
    }
    while k < n
        invariant
            k <= n <= 4,
            n <= b.len(),
            v as nat == le_value(b@, k as nat),
            scale as nat == vstd::arithmetic::power2::pow2((8 * k) as nat),
            v < scale,
            scale <= 0x1_0000_0000,
        decreases n - k,
    {
        proof {
            lemma_le_bound(b@, (k + 1) as nat);
            vstd::arithmetic::power2::lemma_pow2_adds((8 * k) as nat, 8);
            vstd::arithmetic::power2::lemma2_to64();
            assert(8 * k + 8 == 8 * (k + 1));
        }
        assert((b[k as int] as nat) * (scale as nat) <= 255 * 0x1_0000_0000) by (nonlinear_arith)
            requires
                b[k as int] <= 255,
                scale <= 0x1_0000_0000,
        ;
        let ghost s0 = scale;
        let ghost v0 = v;
        v = v + (b[k] as u64) * scale;
        proof {
            assert(vstd::arithmetic::power2::pow2((8 * k + 8) as nat) == (s0 as nat) * 256);
        }
        assert(v < (s0 as nat) * 256) by (nonlinear_arith)
            requires
                v == v0 + (b[k as int] as nat) * (s0 as nat),
                v0 < s0,
                b[k as int] <= 255,
        ;
        assert((s0 as nat) * 256 <= 0x1_0000_0000) by {
            assert(k + 1 <= 4);
            if 8 * k + 8 < 32 {
                vstd::arithmetic::power2::lemma_pow2_strictly_increases((8 * k + 8) as nat, 32);
            }
        }
        scale = scale * 256;
        k = k + 1;
    }
    if v > 0x1_0000 { 0 } else { v as u32 }
}

/// How many bytes a packed stream starting with `hdr` takes: its 9-byte header and
/// the packed length it gives; `None` when `hdr` is not the header of a packed
/// stream (shorter than 9 bytes or not of type 2).
pub open spec fn spec_stream_extent(hdr: Seq<u8>) -> Option<int> {
    if hdr.len() < 9 || hdr[0] != 2 {
        None
    } else {
        Some(9 + be32(hdr[1], hdr[2], hdr[3], hdr[4]))
    }
}

/// How many bytes a packed stream takes (see `spec_stream_extent`).
pub fn stream_extent(hdr: &[u8]) -> (r: Option<u64>)
    ensures
        match spec_stream_extent(hdr@) {
            Some(n) => r == Some(n as u64) && n == r->0,
            None => r is None,
        },
{
    if hdr.len() < 9 || hdr[0] != 2 {
        None
    } else {
        Some(9 + be_u32(hdr[1], hdr[2], hdr[3], hdr[4]) as u64)
    }
}

} // verus!
