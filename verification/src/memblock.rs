//! Memory blocks: a region a program carves allocations out of, from the front, in
//! 4-byte steps, until it is reset.
use vstd::prelude::*;

verus! {

/// A memory block: its region's address and size, and how much of it is handed out.
#[derive(Clone, Copy, Debug, PartialEq, Eq, Structural)]
pub struct MemBlock {
    pub base: u32,
    pub ptr: u32,
    pub total: u32,
}

/// `n` rounded up to a multiple of 4.
pub open spec fn round4(n: u32) -> int {
    (n as int + 3) / 4 * 4
}

impl MemBlock {
    /// A block over `size` bytes at `base`, nothing handed out.
    pub fn new(base: u32, size: u32) -> (b: MemBlock)
        ensures
            b == (MemBlock { base, ptr: 0, total: size }),
    {
        MemBlock { base, ptr: 0, total: size }
    }

    /// Hand out `n` bytes (rounded up to 4): the address, or `None` (nothing changes)
    /// when the block has too little left.
    pub fn mb_malloc(&mut self, n: u32) -> (r: Option<u32>)
        requires
            n <= u32::MAX - 3,
            old(self).ptr + round4(n) <= u32::MAX,
            old(self).ptr + round4(n) <= old(self).total ==> old(self).base + old(self).ptr <= u32::MAX,
        ensures
            old(self).ptr + round4(n) > old(self).total ==> r is None && *final(self) == *old(self),
            old(self).ptr + round4(n) <= old(self).total ==> r == Some((old(self).base + old(self).ptr) as u32)
                && *final(self) == (MemBlock { ptr: (old(self).ptr + round4(n)) as u32, ..*old(self) }),
    {
        let m: u32 = n + 3;
        let size = m & !3u32;
        assert(size == m - m % 4) by (bit_vector)
            requires
                size == m & !3u32,
        ;
        if self.ptr + size > self.total {
            return None;
        }
        let at = self.base + self.ptr;
        self.ptr = self.ptr + size;
        Some(at)
    }

    /// Hand everything back.
    pub fn mb_reset(&mut self)
        ensures
            *final(self) == (MemBlock { ptr: 0, ..*old(self) }),
    {
        self.ptr = 0;
    }
}

/// Two allocations from a block in a row do not overlap: the second starts where
/// the first ends.
pub proof fn allocations_do_not_overlap(b: MemBlock, n1: u32, n2: u32)
    requires
        b.ptr + round4(n1) + round4(n2) <= b.total,
        b.base + b.total <= u32::MAX,
    ensures
        ({
            let p1 = b.base + b.ptr;
            let p2 = b.base + b.ptr + round4(n1);
            &&& p1 + n1 <= p2
            &&& p2 + n2 <= b.base + b.total
        }),
{
}

} // verus!
