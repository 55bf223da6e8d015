use vstd::prelude::*;

verus! {

/// The reflected CRC-32 polynomial used by zlib.
pub const POLY: u32 = 0xEDB8_8320;

/// One shift step of the bitwise CRC register.
pub open spec fn crc_step(c: u32) -> u32 {
    if c & 1 != 0 { (c >> 1) ^ POLY } else { c >> 1 }
}

/// Apply `k` shift steps to the register.
pub open spec fn crc_steps(c: u32, k: nat) -> u32
    decreases k,
{
    if k == 0 { c } else { crc_steps(crc_step(c), (k - 1) as nat) }
}

/// The register after feeding the bytes of `d` into a register that started at `init`.
pub open spec fn crc_register(init: u32, d: Seq<u8>) -> u32
    decreases d.len(),
{
    if d.len() == 0 {
        init
    } else {
        crc_steps(crc_register(init, d.drop_last()) ^ (d.last() as u32), 8)
    }
}

/// CRC-32 (IEEE, as in zlib) of a byte sequence.
pub open spec fn spec_crc32(d: Seq<u8>) -> u32 {
    !crc_register(0xFFFF_FFFF, d)
}

/// CRC-32 as computed by zlib.
pub fn crc32(data: &[u8]) -> (r: u32)
    ensures
        r == spec_crc32(data@),
{
    let mut crc: u32 = 0xFFFF_FFFF;
    let mut i: usize = 0;
    while i < data.len()
        invariant
            i <= data.len(),
            crc == crc_register(0xFFFF_FFFF, data@.take(i as int)),
        decreases data.len() - i,
    {
        let b = data[i];
        crc = crc ^ (b as u32);
        let ghost start = crc;
        let mut k: u32 = 0;
        while k < 8
            invariant
                k <= 8,
                crc == crc_steps(start, k as nat),
            decreases 8 - k,
        {
            proof { lemma_steps_succ(start, k as nat); }
            crc = if crc & 1 != 0 { (crc >> 1) ^ POLY } else { crc >> 1 };
            k = k + 1;
        }
        proof {
            assert(data@.take(i + 1).drop_last() =~= data@.take(i as int));
        }
        i = i + 1;
    }
    proof {
        assert(data@.take(data.len() as int) =~= data@);
    }
    !crc
}

proof fn lemma_steps_succ(c: u32, k: nat)
    ensures
        crc_steps(c, k + 1) == crc_step(crc_steps(c, k)),
    decreases k,
{
    reveal_with_fuel(crc_steps, 2);
    if k > 0 {
        lemma_steps_succ(crc_step(c), (k - 1) as nat);
    }
}

} // verus!
