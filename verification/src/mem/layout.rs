//! The fixed address layout of the emulated machine.
use vstd::prelude::*;

verus! {

/// Addresses below this are never mapped.
pub const NULL_GUARD: u32 = 0x0002_0000;
/// Where the read-only image goes when the module names no load base.
pub const RO_DEFAULT: u32 = 0x0100_0000;
/// Where the read-write image goes when the module names no load base.
pub const RW_BASE: u32 = 0x2000_0000;
pub const STACK_BASE: u32 = 0x3000_0000;
pub const STACK_SIZE: u32 = 0x0010_0000;
pub const HEAP_BASE: u32 = 0x4000_0000;
pub const HEAP_SIZE: u32 = 0x1000_0000;
pub const NATIVE_BASE: u32 = 0x5100_0000;
pub const NATIVE_SIZE: u32 = 0x0001_0000;
pub const TRAP_BASE: u32 = 0x5000_0000;
pub const TRAP_SIZE: u32 = 0x0004_0000;
pub const DATA_BASE: u32 = 0x6000_0000;
pub const DATA_SIZE: u32 = 0x0040_0000;
/// The return address that marks the end of a call into emulated code.
pub const RETURN_MAGIC: u32 = 0x7FFF_0000;

} // verus!
