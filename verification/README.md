# emucore

The core of an emulator for CoolBar `.cbe` modules, written in Verus: every
function in `src/` carries a `requires`/`ensures` contract over a mathematical
model and is proved by Verus, except the trusted items whose contracts are
believed: six wrappers around outside calls (`String::push`, `str` equality,
`str::to_lowercase`, GB18030 decoding and encoding through `encoding_rs`, zlib
inflation through `miniz_oxide`) and one `assume_specification`
(`char::from_u32`).

## Layout

- `src/container.rs`, `src/lz.rs`, `src/crc.rs`, `src/errtext.rs`: the `.cbe`
  container, its resource tables and packed entries, CRC-32, and the error messages.
- `src/imgcodec.rs`: PNG and GIF decoding to RGB565 images (zlib inflation is
  called through `miniz_oxide`).
- `src/mem.rs`, `src/memblock.rs`: the guest heap (a bump allocator with a free
  list) and the programs' own memory blocks.
- `src/font.rs`, `src/gfx.rs`, `src/audio.rs`: glyphs and text painting, image
  buffers and blits, sound sniffing and MIDI length.
- `src/session.rs`, `src/engine.rs`, `src/timers.rs`: input between frames, the
  engine's command lines, timers.
- `src/vfs.rs`, `src/style.rs`, `src/oldsys.rs`: path handling of the file calls,
  the calling style of a module's entry, the call gate of old-style modules.
- `src/api/`: the table the system calls are resolved by, and their pure parts:
  16-bit arithmetic, clipping, frames and tiling, text boxes and layouts,
  `printf`, C string functions,
  GB18030/UCS-2 conversion (through `encoding_rs`), data packages, actors, file
  searches.
- `tests/`: tests run against the compiled library.
- `app/`: the `cbedump` tool (file reading and printing) around the library.
