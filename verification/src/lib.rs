use vstd::prelude::*;

pub mod crc;
pub mod lz;
pub mod strs;
pub mod container;
pub mod imgcodec;
pub mod mem;
pub mod session;
pub mod audio;
pub mod font;
pub mod gfx;
pub mod api;
pub mod engine;
pub mod vfs;
pub mod timers;
pub mod style;
pub mod memblock;
pub mod oldsys;
pub mod errtext;

verus! {

} // verus!
