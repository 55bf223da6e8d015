//! Small conversions of system-call arguments.
use vstd::prelude::*;

verus! {

/// A 32-bit argument read as a signed value (two's complement).
pub fn s32(v: u32) -> (r: i32)
    ensures
        r as int == (if v >= 0x8000_0000 { v as int - 0x1_0000_0000 } else { v as int }),
{
    let r = v as i32;
    assert(r as int == (if v >= 0x8000_0000 { v as int - 0x1_0000_0000 } else { v as int })) by (bit_vector)
        requires
            r == v as i32,
    ;
    r
}

} // verus!
