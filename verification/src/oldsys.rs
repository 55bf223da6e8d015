//! The system call gate of old-style modules: a call number picks what serves it,
//! and calls passed on to a newer system call carry their arguments in a frame
//! laid out by a short code (`I` a word, `H` a half-word, anything else a byte).
use vstd::prelude::*;

verus! {

/// Registers the module's callbacks.
pub const OLD_REGISTER_APP: u32 = 1950;
/// Fetches a resource.
pub const OLD_FETCH: u32 = 2001;
/// The game library object.
pub const OLD_GAMELIB: u32 = 143;
/// A copy of the game library object.
pub const OLD_GAMELIB_COPY: u32 = 82;
/// How many bytes that copy takes.
pub const OLD_GAMELIB_COPY_SIZE: u32 = 0x26c;
/// Allocates from the global block.
pub const OLD_GBLOCK_ALLOC: u32 = 185;
/// Forgets a global block allocation.
pub const OLD_GBLOCK_FREE: u32 = 190;

/// What serves an old-style system call.
#[derive(Clone, Copy, Debug, PartialEq, Eq, Structural)]
pub enum OldRoute {
    RegisterApp,
    Fetch,
    Gamelib,
    GamelibCopy,
    GblockAlloc,
    GblockFree,
    Net,
    Forward,
    Object,
}

/// The network calls.
pub open spec fn is_net_call(sid: u32) -> bool {
    sid == 1004 || sid == 1005 || sid == 1006 || sid == 1030 || sid == 1031 || sid == 1057
}

/// The newer system call (manager tag, name, argument code) an old call number is
/// passed on to.
pub open spec fn spec_forward(sid: u32) -> Option<(Seq<char>, Seq<char>, Seq<char>)> {
    if sid == 183 {
        Some(("VmMemoryManagerTag"@, "dF_InitMemory"@, "I"@))
    } else if sid == 142 {
        Some(("VmMemoryManagerTag"@, "mF_GetGMemoryBlockPtr"@, ""@))
    } else if sid == 103 {
        Some(("VmMemoryManagerTag"@, "mF_InitMemoryBlock"@, "II"@))
    } else if sid == 184 {
        Some(("VmMemoryManagerTag"@, "dF_ReleaseMemory"@, ""@))
    } else if sid == 4 {
        Some(("VmSysManagerTag"@, "VmEnterWinClose"@, ""@))
    } else if sid == 61 {
        Some(("GameManagerOldTag"@, "Storage_Date"@, "IIIBB"@))
    } else if sid == 156 {
        Some(("VmDFEnginelManagerTag"@, "DF_SendMessage"@, "IHI"@))
    } else if sid == 1050 {
        Some(("VmIoManagerTag"@, "Vm_file_open"@, "III"@))
    } else if sid == 1051 {
        Some(("VmIoManagerTag"@, "Vm_file_write"@, "III"@))
    } else if sid == 1052 {
        Some(("VmIoManagerTag"@, "Vm_file_close"@, "I"@))
    } else if sid == 1063 {
        Some(("VmIoManagerTag"@, "Vm_file_read"@, "III"@))
    } else if sid == 1066 {
        Some(("VmIoManagerTag"@, "Vm_file_getfilesize"@, "I"@))
    } else {
        None
    }
}

/// The newer system call an old call number is passed on to (see `spec_forward`).
pub fn old_forward_entry(sid: u32) -> (r: Option<(&'static str, &'static str, &'static str)>)
    ensures
        match r {
            Some(t) => spec_forward(sid) == Some((t.0@, t.1@, t.2@)),
            None => spec_forward(sid) is None,
        },
{
    if sid == 183 {
        Some(("VmMemoryManagerTag", "dF_InitMemory", "I"))
    } else if sid == 142 {
        Some(("VmMemoryManagerTag", "mF_GetGMemoryBlockPtr", ""))
    } else if sid == 103 {
        Some(("VmMemoryManagerTag", "mF_InitMemoryBlock", "II"))
    } else if sid == 184 {
        Some(("VmMemoryManagerTag", "dF_ReleaseMemory", ""))
    } else if sid == 4 {
        Some(("VmSysManagerTag", "VmEnterWinClose", ""))
    } else if sid == 61 {
        Some(("GameManagerOldTag", "Storage_Date", "IIIBB"))
    } else if sid == 156 {
        Some(("VmDFEnginelManagerTag", "DF_SendMessage", "IHI"))
    } else if sid == 1050 {
        Some(("VmIoManagerTag", "Vm_file_open", "III"))
    } else if sid == 1051 {
        Some(("VmIoManagerTag", "Vm_file_write", "III"))
    } else if sid == 1052 {
        Some(("VmIoManagerTag", "Vm_file_close", "I"))
    } else if sid == 1063 {
        Some(("VmIoManagerTag", "Vm_file_read", "III"))
    } else if sid == 1066 {
        Some(("VmIoManagerTag", "Vm_file_getfilesize", "I"))
    } else {
        None
    }
}

/// What serves old call `sid`: the fixed calls first, then the network calls, then
/// those passed on; any other number answers with a fresh object.
pub open spec fn spec_route(sid: u32) -> OldRoute {
    if sid == OLD_REGISTER_APP {
        OldRoute::RegisterApp
    } else if sid == OLD_FETCH {
        OldRoute::Fetch
    } else if sid == OLD_GAMELIB {
        OldRoute::Gamelib
    } else if sid == OLD_GAMELIB_COPY {
        OldRoute::GamelibCopy
    } else if sid == OLD_GBLOCK_ALLOC {
        OldRoute::GblockAlloc
    } else if sid == OLD_GBLOCK_FREE {
        OldRoute::GblockFree
    } else if is_net_call(sid) {
        OldRoute::Net
    } else if spec_forward(sid) is Some {
        OldRoute::Forward
    } else {
        OldRoute::Object
    }
}

/// What serves an old call (see `spec_route`).
pub fn old_route(sid: u32) -> (r: OldRoute)
    ensures
        r == spec_route(sid),
{
    if sid == OLD_REGISTER_APP {
        OldRoute::RegisterApp
    } else if sid == OLD_FETCH {
        OldRoute::Fetch
    } else if sid == OLD_GAMELIB {
        OldRoute::Gamelib
    } else if sid == OLD_GAMELIB_COPY {
        OldRoute::GamelibCopy
    } else if sid == OLD_GBLOCK_ALLOC {
        OldRoute::GblockAlloc
    } else if sid == OLD_GBLOCK_FREE {
        OldRoute::GblockFree
    } else if sid == 1004 || sid == 1005 || sid == 1006 || sid == 1030 || sid == 1031 || sid == 1057 {
        OldRoute::Net
    } else if old_forward_entry(sid).is_some() {
        OldRoute::Forward
    } else {
        OldRoute::Object
    }
}

/// The width of an argument of code `c`.
pub open spec fn arg_width(c: u8) -> int {
    if c == 0x49 { 4 } else if c == 0x48 { 2 } else { 1 }
}

/// Where argument `k` of the code `code` lies in the frame: just after the one
/// before, moved up to a multiple of its own width.
pub open spec fn arg_offset(code: Seq<u8>, k: nat) -> int
    decreases k,
{
    let end = if k == 0 { 0 } else { arg_offset(code, (k - 1) as nat) + arg_width(code[k - 1]) };
    let w = arg_width(code[k as int]);
    ((end + w - 1) / w) * w
}

proof fn lemma_offset_bound(code: Seq<u8>, k: nat)
    ensures
        0 <= arg_offset(code, k) <= 4 * k,
    decreases k,
{
    let w = arg_width(code[k as int]);
    if k > 0 {
        lemma_offset_bound(code, (k - 1) as nat);
    }
    let end = if k == 0 { 0 } else { arg_offset(code, (k - 1) as nat) + arg_width(code[k - 1]) };
    assert(0 <= end <= 4 * k);
    assert(0 <= ((end + w - 1) / w) * w <= 4 * k) by (nonlinear_arith)
        requires
            0 <= end <= 4 * k,
            w == 1 || w == 2 || w == 4,
            k >= 1 || end == 0,
    {
        if w == 4 {
            assert((end + 3) / 4 * 4 <= end + 3);
        }
    }
}

/// The offset and width of each argument of the code `code` (see `arg_offset`).
pub fn old_arg_layout(code: &[u8]) -> (r: Vec<(u32, u32)>)
    requires
        code@.len() <= 0x1000_0000,
    ensures
        r@.len() == code@.len(),
        forall|k: int| 0 <= k < code@.len() ==> #[trigger] r@[k] == (arg_offset(code@, k as nat) as u32, arg_width(code@[k]) as u32),
{
    let mut out: Vec<(u32, u32)> = Vec::new();
    let mut end: u32 = 0;
    let mut k: usize = 0;
    while k < code.len()
        invariant
            k <= code@.len() <= 0x1000_0000,
            out@.len() == k,
            end as int == (if k == 0 { 0 } else { arg_offset(code@, (k - 1) as nat) + arg_width(code@[k - 1]) }),
            end <= 4 * k,
            forall|j: int| 0 <= j < k ==> #[trigger] out@[j] == (arg_offset(code@, j as nat) as u32, arg_width(code@[j]) as u32),
        decreases code@.len() - k,
    {
        let c = code[k];
        let w: u32 = if c == 0x49 { 4 } else if c == 0x48 { 2 } else { 1 };
        proof {
            lemma_offset_bound(code@, k as nat);
        }
        let off = (end + w - 1) / w * w;
        assert(off as int == arg_offset(code@, k as nat));
        out.push((off, w));
        end = off + w;
        k = k + 1;
    }
    out
}

} // verus!
