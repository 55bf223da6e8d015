//! The pure parts of the emulated system calls: arithmetic, text layout, drawing
//! geometry and the parsers of data the programs hand over.
pub mod oldlib;
pub mod text;
pub mod fileio;
pub mod printf;
pub mod storage;
pub mod misc;
pub mod dfpkg;
pub mod std_c;
pub mod actor;
pub mod aps;
pub mod finds;
pub mod frames;
pub mod rects;
pub mod dfio;
pub mod table;
pub mod pkgindex;
