use vstd::prelude::*;
use vstd::slice::slice_to_vec;

use crate::strs::{latin1, latin1_string, str_eq, copy_string};

verus! {

/// The last eight bytes of every CBE module.
pub const MAGIC_TAIL: [u8; 8] = [0x43, 0x6F, 0x6F, 0x6C, 0x42, 0x61, 0x72, 0x73];

/// Length of the module footer.
pub const FOOTER_LEN: usize = 44;

/// Why a module or a resource archive could not be read.
#[derive(Debug, Clone, Copy, PartialEq, Eq, Structural)]
pub enum CbeError {
    /// A big-endian u32 at this offset lies past the end of the buffer.
    ReadBe(usize),
    /// A little-endian u32 at this offset lies past the end of the buffer.
    ReadLe(usize),
    /// The archive's index and data sizes do not add up to its size.
    SizeMismatch { data_off: usize, data_size: usize, size: usize },
    /// The length byte of a name at this offset lies past the end of the buffer.
    NameTableOob(usize),
    /// The name whose length byte is at this offset runs past the end of the buffer.
    NameOob(usize),
    /// The name table ends elsewhere than where the data begins.
    NameTableEnd { end: usize, expected: usize },
    /// The buffer does not end with the `CoolBars` trailer.
    NoTrailer,
    /// The buffer is too small to hold a footer.
    TooSmall(usize),
    /// The footer offset disagrees with the buffer length.
    FooterOffset { foot: usize, expected: usize },
    /// Header field `index` could not be read at offset `at`.
    HeaderField { index: usize, at: usize },
    /// The module name runs past the end of the buffer.
    ModuleNameOob,
    /// The RO segment runs past the end of the buffer.
    RoOob,
    /// The RW segment runs past the end of the buffer.
    RwOob,
}

/// Byte order of the module's ARM code.
#[derive(Debug, Clone, Copy, PartialEq, Eq, Structural)]
pub enum Endian {
    Le,
    Be,
}

impl Endian {
    /// "LE" or "BE".
    pub fn as_str(self) -> (s: &'static str)
        ensures
            s@ == (if self == Endian::Le { "LE"@ } else { "BE"@ }),
    {
        match self {
            Endian::Le => "LE",
            Endian::Be => "BE",
        }
    }
}

/// One named entry of a resource archive.
#[derive(Clone, Debug)]
pub struct ResEntry {
    pub name: String,
    pub off: usize,
    pub size: usize,
    pub data: Vec<u8>,
}

/// The mathematical value of a resource entry.
pub struct SpecEntry {
    pub name: Seq<char>,
    pub off: int,
    pub size: int,
    pub data: Seq<u8>,
}

impl View for ResEntry {
    type V = SpecEntry;

    open spec fn view(&self) -> SpecEntry {
        SpecEntry { name: self.name@, off: self.off as int, size: self.size as int, data: self.data@ }
    }
}

/// A resource archive: a count, an offset table, a name table and a data area.
#[derive(Clone, Debug)]
pub struct ResArchive {
    pub base: usize,
    pub size: usize,
    pub count: usize,
    pub data_off: usize,
    pub data_size: usize,
    pub entries: Vec<ResEntry>,
}

/// The mathematical value of a resource archive.
pub struct SpecArchive {
    pub base: int,
    pub size: int,
    pub count: int,
    pub data_off: int,
    pub data_size: int,
    pub entries: Seq<SpecEntry>,
}

impl View for ResArchive {
    type V = SpecArchive;

    open spec fn view(&self) -> SpecArchive {
        SpecArchive {
            base: self.base as int,
            size: self.size as int,
            count: self.count as int,
            data_off: self.data_off as int,
            data_size: self.data_size as int,
            entries: self.entries@.map_values(|e: ResEntry| e@),
        }
    }
}

/// Index of the first entry named `name`, if any.
pub open spec fn first_named(es: Seq<SpecEntry>, name: Seq<char>) -> Option<int> {
    if exists|i: int| 0 <= i < es.len() && #[trigger] es[i].name == name {
        Some(choose|i: int| 0 <= i < es.len() && es[i].name == name
            && forall|j: int| 0 <= j < i ==> #[trigger] es[j].name != name)
    } else {
        None
    }
}

impl ResArchive {
    /// The first entry named `name`.
    pub fn get(&self, name: &str) -> (r: Option<&ResEntry>)
        ensures
            r is None <==> forall|i: int| 0 <= i < self.entries@.len() ==> #[trigger] self.entries@[i].name@ != name@,
            r matches Some(e) ==> exists|i: int| 0 <= i < self.entries@.len() && e == &self.entries@[i]
                && e.name@ == name@
                && forall|j: int| 0 <= j < i ==> #[trigger] self.entries@[j].name@ != name@,
    {
        let mut i: usize = 0;
        while i < self.entries.len()
            invariant
                i <= self.entries@.len(),
                forall|j: int| 0 <= j < i ==> #[trigger] self.entries@[j].name@ != name@,
            decreases self.entries@.len() - i,
        {
            if str_eq(self.entries[i].name.as_str(), name) {
                return Some(&self.entries[i]);
            }
            i = i + 1;
        }
        None
    }

    /// The names of the entries, in order.
    pub fn names(&self) -> (r: Vec<&str>)
        ensures
            r@.len() == self.entries@.len(),
            forall|i: int| 0 <= i < r@.len() ==> #[trigger] r@[i]@ == self.entries@[i].name@,
    {
        let mut r: Vec<&str> = Vec::new();
        let mut i: usize = 0;
        while i < self.entries.len()
            invariant
                i <= self.entries@.len(),
                r@.len() == i,
                forall|j: int| 0 <= j < i ==> #[trigger] r@[j]@ == self.entries@[j].name@,
            decreases self.entries@.len() - i,
        {
            r.push(self.entries[i].name.as_str());
            i = i + 1;
        }
        r
    }
}

// ---------------------------------------------------------------------------
// Reading integers

/// Little-endian u32 at `at`, if the four bytes lie inside the buffer.
pub open spec fn spec_le32(buf: Seq<u8>, at: int) -> Option<u32> {
    if 0 <= at && at + 4 <= buf.len() {
        Some(((buf[at + 3] as int) * 0x100_0000 + (buf[at + 2] as int) * 0x1_0000 + (buf[at + 1] as int)
            * 0x100 + buf[at] as int) as u32)
    } else {
        None
    }
}

/// Big-endian u32 at `at`, if the four bytes lie inside the buffer.
pub open spec fn spec_be32(buf: Seq<u8>, at: int) -> Option<u32> {
    if 0 <= at && at + 4 <= buf.len() {
        Some(((buf[at] as int) * 0x100_0000 + (buf[at + 1] as int) * 0x1_0000 + (buf[at + 2] as int)
            * 0x100 + buf[at + 3] as int) as u32)
    } else {
        None
    }
}

fn u32be(buf: &[u8], at: usize) -> (r: Result<u32, CbeError>)
    ensures
        match spec_be32(buf@, at as int) {
            Some(v) => r == Ok::<u32, CbeError>(v),
            None => r == Err::<u32, CbeError>(CbeError::ReadBe(at)),
        },
{
    if at <= buf.len() && 4 <= buf.len() - at {
        Ok((buf[at] as u32) * 0x100_0000 + (buf[at + 1] as u32) * 0x1_0000 + (buf[at + 2] as u32) * 0x100
            + buf[at + 3] as u32)
    } else {
        Err(CbeError::ReadBe(at))
    }
}

fn u32le(buf: &[u8], at: usize) -> (r: Result<u32, CbeError>)
    ensures
        match spec_le32(buf@, at as int) {
            Some(v) => r == Ok::<u32, CbeError>(v),
            None => r == Err::<u32, CbeError>(CbeError::ReadLe(at)),
        },
{
    if at <= buf.len() && 4 <= buf.len() - at {
        Ok((buf[at + 3] as u32) * 0x100_0000 + (buf[at + 2] as u32) * 0x1_0000 + (buf[at + 1] as u32) * 0x100
            + buf[at] as u32)
    } else {
        Err(CbeError::ReadLe(at))
    }
}

/// The first offset at or after `o` that does not hold a 0xFE padding byte.
pub open spec fn spec_skip_fe(buf: Seq<u8>, o: int) -> int
    decreases buf.len() - o,
{
    if 0 <= o < buf.len() && buf[o] == 0xFE {
        spec_skip_fe(buf, o + 1)
    } else {
        o
    }
}

proof fn lemma_skip_fe_ge(buf: Seq<u8>, o: int)
    ensures
        spec_skip_fe(buf, o) >= o,
        o <= buf.len() ==> spec_skip_fe(buf, o) <= buf.len(),
    decreases buf.len() - o,
{
    if 0 <= o < buf.len() && buf[o] == 0xFE {
        lemma_skip_fe_ge(buf, o + 1);
    }
}

fn skip_fe(buf: &[u8], o: usize) -> (r: usize)
    ensures
        r == spec_skip_fe(buf@, o as int),
{
    let ghost start = o;
    let mut o = o;
    while o < buf.len() && buf[o] == 0xFE
        invariant
            spec_skip_fe(buf@, o as int) == spec_skip_fe(buf@, start as int),
        decreases buf.len() - o,
    {
        o = o + 1;
    }
    o
}

// ---------------------------------------------------------------------------
// Resource archives

/// The header of a resource archive: index size, data size, entry count, where the
/// offset table starts and where the index size field sits.
pub struct ResHeader {
    pub index_size: int,
    pub data_size: int,
    pub count: int,
    pub hdr: int,
    pub isz_at: int,
}

/// Three little-endian fields at `a`, `b`, `c`, read in that order.
pub open spec fn spec_three_le(buf: Seq<u8>, a: int, b: int, c: int) -> Result<(u32, u32, u32), CbeError> {
    match spec_le32(buf, a) {
        None => Err(CbeError::ReadLe(a as usize)),
        Some(x) => match spec_le32(buf, b) {
            None => Err(CbeError::ReadLe(b as usize)),
            Some(y) => match spec_le32(buf, c) {
                None => Err(CbeError::ReadLe(c as usize)),
                Some(z) => Ok((x, y, z)),
            },
        },
    }
}

/// The header of the archive at `base`: `Ok(None)` when the magic is not a known one.
/// The variant layout (inside multi-packages) has no magic.
pub open spec fn spec_res_header(buf: Seq<u8>, base: int, variant: bool) -> Result<Option<ResHeader>, CbeError> {
    if variant {
        match spec_three_le(buf, base, base + 4, base + 8) {
            Err(e) => Err(e),
            Ok((i, d, c)) => Ok(Some(ResHeader { index_size: i as int, data_size: d as int, count: c as int, hdr: 0x10, isz_at: 0 })),
        }
    } else {
        match spec_le32(buf, base) {
            None => Err(CbeError::ReadLe(base as usize)),
            Some(magic) => if magic == 8 {
                match spec_three_le(buf, base + 0x0C, base + 0x10, base + 0x14) {
                    Err(e) => Err(e),
                    Ok((i, d, c)) => Ok(Some(ResHeader { index_size: i as int, data_size: d as int, count: c as int, hdr: 0x1C, isz_at: 0x0C })),
                }
            } else if magic == 4 {
                match spec_three_le(buf, base + 0x08, base + 0x0C, base + 0x10) {
                    Err(e) => Err(e),
                    Ok((i, d, c)) => Ok(Some(ResHeader { index_size: i as int, data_size: d as int, count: c as int, hdr: 0x18, isz_at: 0x08 })),
                }
            } else {
                Ok(None)
            },
        }
    }
}

/// The first `n` entries of the offset table at `at`, read in order.
pub open spec fn spec_offsets(buf: Seq<u8>, at: int, n: nat) -> Result<Seq<u32>, CbeError>
    decreases n,
{
    if n == 0 {
        Ok(Seq::empty())
    } else {
        match spec_offsets(buf, at, (n - 1) as nat) {
            Err(e) => Err(e),
            Ok(s) => match spec_le32(buf, at + 4 * (n - 1)) {
                None => Err(CbeError::ReadLe((at + 4 * (n - 1)) as usize)),
                Some(v) => Ok(s.push(v)),
            },
        }
    }
}

/// The first `n` length-prefixed names of the table at `o`, and where the table ends.
pub open spec fn spec_names(buf: Seq<u8>, o: int, n: nat) -> Result<(Seq<Seq<u8>>, int), CbeError>
    decreases n,
{
    if n == 0 {
        Ok((Seq::empty(), o))
    } else {
        match spec_names(buf, o, (n - 1) as nat) {
            Err(e) => Err(e),
            Ok((names, p)) => if !(0 <= p < buf.len()) {
                Err(CbeError::NameTableOob(p as usize))
            } else if p + 1 + buf[p] as int > buf.len() {
                Err(CbeError::NameOob(p as usize))
            } else {
                Ok((names.push(buf.subrange(p + 1, p + 1 + buf[p] as int)), p + 1 + buf[p] as int))
            },
        }
    }
}

/// The bytes `buf[abs..abs + len]`, or nothing when they do not lie inside the buffer.
pub open spec fn spec_slice_or_empty(buf: Seq<u8>, abs: int, len: int) -> Seq<u8> {
    if 0 <= abs && 0 <= len && abs + len <= buf.len() {
        buf.subrange(abs, abs + len)
    } else {
        Seq::empty()
    }
}

/// Entry `i` of an archive: its data runs from its offset to the next offset
/// (the data size for the last entry), and is empty when it lies outside the buffer.
pub open spec fn spec_entry(
    buf: Seq<u8>,
    base: int,
    data_off: int,
    data_size: int,
    offs: Seq<int>,
    names: Seq<Seq<u8>>,
    i: int,
) -> SpecEntry {
    let off = offs[i];
    let end = if i + 1 < offs.len() { offs[i + 1] } else { data_size };
    let len = if end >= off { end - off } else { 0 };
    SpecEntry { name: latin1(names[i]), off, size: len, data: spec_slice_or_empty(buf, base + data_off + off, len) }
}

/// The archive whose header is `h`, once the header has been read.
pub open spec fn spec_res_body(buf: Seq<u8>, base: int, size: int, h: ResHeader) -> Result<Option<SpecArchive>, CbeError> {
    if h.count == 0 || h.count > 0x10000 {
        Ok(None)
    } else {
        let data_off = h.isz_at + 4 + h.index_size;
        if data_off + h.data_size != size {
            Err(CbeError::SizeMismatch { data_off: data_off as usize, data_size: h.data_size as usize, size: size as usize })
        } else {
            match spec_offsets(buf, base + h.hdr, (h.count - 1) as nat) {
                Err(e) => Err(e),
                Ok(rest) => match spec_names(buf, base + h.hdr + 4 * (h.count - 1), h.count as nat) {
                    Err(e) => Err(e),
                    Ok((names, end)) => if end - base != data_off {
                        Err(CbeError::NameTableEnd { end: (end - base) as usize, expected: data_off as usize })
                    } else {
                        let offs = seq![0int] + rest.map_values(|v: u32| v as int);
                        Ok(Some(SpecArchive {
                            base,
                            size,
                            count: h.count,
                            data_off,
                            data_size: h.data_size,
                            entries: Seq::new(h.count as nat, |i: int| spec_entry(buf, base, data_off, h.data_size, offs, names, i)),
                        }))
                    },
                },
            }
        }
    }
}

/// What `parse_res` returns for the archive of `size` bytes at `base`.
pub open spec fn spec_parse_res(buf: Seq<u8>, base: int, size: int, variant: bool) -> Result<Option<SpecArchive>, CbeError> {
    if size < 0x1C {
        Ok(None)
    } else {
        match spec_res_header(buf, base, variant) {
            Err(e) => Err(e),
            Ok(None) => Ok(None),
            Ok(Some(h)) => spec_res_body(buf, base, size, h),
        }
    }
}

/// The result of `parse_res` related to its mathematical value.
pub open spec fn res_result_matches(r: Result<Option<ResArchive>, CbeError>, s: Result<Option<SpecArchive>, CbeError>) -> bool {
    match r {
        Ok(Some(a)) => s == Ok::<Option<SpecArchive>, CbeError>(Some(a@)),
        Ok(None) => s == Ok::<Option<SpecArchive>, CbeError>(None),
        Err(e) => s == Err::<Option<SpecArchive>, CbeError>(e),
    }
}

/// Little-endian u32 at `base + off`; the error names that offset (wrapped to usize when
/// it does not fit).
fn le_at(buf: &[u8], base: usize, off: usize) -> (r: Result<u32, CbeError>)
    requires
        off <= 0x10_0000,
    ensures
        match spec_le32(buf@, base + off) {
            Some(v) => r == Ok::<u32, CbeError>(v),
            None => r == Err::<u32, CbeError>(CbeError::ReadLe((base + off) as usize)),
        },
{
    if base <= buf.len() && off <= buf.len() - base && 4 <= buf.len() - base - off {
        u32le(buf, base + off)
    } else {
        Err(CbeError::ReadLe(((base as u128) + (off as u128)) as usize))
    }
}

fn read_three_le(buf: &[u8], base: usize, a: usize, b: usize, c: usize) -> (r: Result<(u32, u32, u32), CbeError>)
    requires
        a <= 0x100,
        b <= 0x100,
        c <= 0x100,
    ensures
        r == spec_three_le(buf@, base + a, base + b, base + c),
{
    let x = le_at(buf, base, a)?;
    let y = le_at(buf, base, b)?;
    let z = le_at(buf, base, c)?;
    Ok((x, y, z))
}

/// The header fields (index size, data size, count, table start, index-size field).
fn read_header(buf: &[u8], base: usize, variant: bool) -> (r: Result<Option<(usize, usize, usize, usize, usize)>, CbeError>)
    ensures
        match spec_res_header(buf@, base as int, variant) {
            Err(e) => r == Err::<Option<(usize, usize, usize, usize, usize)>, CbeError>(e),
            Ok(None) => r == Ok::<Option<(usize, usize, usize, usize, usize)>, CbeError>(None),
            Ok(Some(h)) => r matches Ok(Some((i, d, c, hd, isz))) && i == h.index_size && d == h.data_size
                && c == h.count && hd == h.hdr && isz == h.isz_at,
        },
{
    if variant {
        let (i, d, c) = read_three_le(buf, base, 0, 4, 8)?;
        Ok(Some((i as usize, d as usize, c as usize, 0x10, 0)))
    } else {
        let magic = le_at(buf, base, 0)?;
        if magic == 8 {
            let (i, d, c) = read_three_le(buf, base, 0x0C, 0x10, 0x14)?;
            Ok(Some((i as usize, d as usize, c as usize, 0x1C, 0x0C)))
        } else if magic == 4 {
            let (i, d, c) = read_three_le(buf, base, 0x08, 0x0C, 0x10)?;
            Ok(Some((i as usize, d as usize, c as usize, 0x18, 0x08)))
        } else {
            Ok(None)
        }
    }
}

/// The offset table: `0` followed by the `n` stored offsets.
fn read_offsets(buf: &[u8], base: usize, hdr: usize, n: usize) -> (r: Result<Vec<usize>, CbeError>)
    requires
        hdr <= 0x1C,
        n < 0x10000,
    ensures
        match spec_offsets(buf@, base + hdr, n as nat) {
            Err(e) => r == Err::<Vec<usize>, CbeError>(e),
            Ok(s) => r is Ok && r->Ok_0@ == seq![0usize] + s.map_values(|v: u32| v as usize)
                && s.len() == n && r->Ok_0@.len() == n + 1,
        },
{
    let mut offs: Vec<usize> = Vec::new();
    offs.push(0);
    let mut k: usize = 0;
    while k < n
        invariant
            hdr <= 0x1C,
            n < 0x10000,
            k <= n,
            spec_offsets(buf@, base + hdr, k as nat) is Ok,
            spec_offsets(buf@, base + hdr, k as nat)->Ok_0.len() == k,
            offs@.len() == k + 1,
            offs@ == seq![0usize] + spec_offsets(buf@, base + hdr, k as nat)->Ok_0.map_values(|v: u32| v as usize),
        decreases n - k,
    {
        let ghost prev = spec_offsets(buf@, base + hdr, k as nat)->Ok_0;
        let v = match le_at(buf, base, hdr + 4 * k) {
            Ok(v) => v,
            Err(e) => {
                proof { lemma_offsets_err_prop(buf@, base + hdr, (k + 1) as nat, n as nat); }
                return Err(e);
            },
        };
        offs.push(v as usize);
        proof {
            assert(spec_offsets(buf@, base + hdr, (k + 1) as nat)->Ok_0 == prev.push(v));
            assert(offs@ =~= seq![0usize] + prev.push(v).map_values(|v: u32| v as usize));
        }
        k = k + 1;
    }
    Ok(offs)
}

/// The `n` names of the table at `base + rel`, and the offset where the table ends.
fn read_names(buf: &[u8], base: usize, rel: usize, n: usize) -> (r: Result<(Vec<Vec<u8>>, usize), CbeError>)
    requires
        rel <= 0x50000,
        0 < n <= 0x10000,
    ensures
        match spec_names(buf@, base + rel, n as nat) {
            Err(e) => r == Err::<(Vec<Vec<u8>>, usize), CbeError>(e),
            Ok((ns, end)) => r matches Ok((v, o)) && o == end && v@.len() == ns.len() && ns.len() == n
                && o >= base + rel && forall|t: int| 0 <= t < ns.len() ==> #[trigger] v@[t]@ == ns[t],
        },
{
    let ghost o0 = base + rel;
    if base > usize::MAX - rel {
        proof {
            assert(buf@.len() == buf.len());
            assert(spec_names(buf@, o0, 0) == Ok::<(Seq<Seq<u8>>, int), CbeError>((Seq::empty(), o0)));
            lemma_names_err_prop(buf@, o0, 1, n as nat);
        }
        return Err(CbeError::NameTableOob(((base as u128) + (rel as u128)) as usize));
    }
    let mut o: usize = base + rel;
    let mut names: Vec<Vec<u8>> = Vec::new();
    let mut j: usize = 0;
    while j < n
        invariant
            j <= n <= 0x10000,
            o0 == base + rel,
            spec_names(buf@, o0, j as nat) is Ok,
            spec_names(buf@, o0, j as nat)->Ok_0.1 == o as int,
            o >= o0,
            names@.len() == j,
            spec_names(buf@, o0, j as nat)->Ok_0.0.len() == j,
            forall|t: int| 0 <= t < j ==> #[trigger] names@[t]@ == spec_names(buf@, o0, j as nat)->Ok_0.0[t],
        decreases n - j,
    {
        let ghost prev = spec_names(buf@, o0, j as nat)->Ok_0.0;
        if o >= buf.len() {
            proof { lemma_names_err_prop(buf@, o0, (j + 1) as nat, n as nat); }
            return Err(CbeError::NameTableOob(o));
        }
        let ln = buf[o] as usize;
        if ln + 1 > buf.len() - o {
            proof { lemma_names_err_prop(buf@, o0, (j + 1) as nat, n as nat); }
            return Err(CbeError::NameOob(o));
        }
        let nm = slice_to_vec(&buf[o + 1..o + 1 + ln]);
        let ghost before = names@;
        names.push(nm);
        o = o + 1 + ln;
        proof {
            let cur = spec_names(buf@, o0, (j + 1) as nat)->Ok_0.0;
            assert(cur == prev.push(buf@.subrange(o - ln, o as int)));
            assert forall|t: int| 0 <= t < j + 1 implies #[trigger] names@[t]@ == cur[t] by {
                if t < j {
                    assert(names@[t] == before[t]);
                }
            }
        }
        j = j + 1;
    }
    Ok((names, o))
}

/// The entries of an archive whose offset table and names have been read.
fn build_entries(
    buf: &[u8],
    base: usize,
    data_off: usize,
    data_size: usize,
    offs: &Vec<usize>,
    names: &Vec<Vec<u8>>,
    Ghost(soffs): Ghost<Seq<int>>,
    Ghost(ns): Ghost<Seq<Seq<u8>>>,
) -> (r: Vec<ResEntry>)
    requires
        offs@.len() == names@.len() == soffs.len() == ns.len(),
        forall|t: int| 0 <= t < soffs.len() ==> offs@[t] as int == #[trigger] soffs[t],
        forall|t: int| 0 <= t < ns.len() ==> #[trigger] names@[t]@ == ns[t],
    ensures
        r@.len() == offs@.len(),
        forall|t: int| 0 <= t < r@.len() ==> #[trigger] r@[t]@ == spec_entry(buf@, base as int, data_off as int, data_size as int, soffs, ns, t),
{
    let count = offs.len();
    let mut entries: Vec<ResEntry> = Vec::new();
    let mut i: usize = 0;
    while i < count
        invariant
            i <= count,
            count == offs@.len() == names@.len() == soffs.len() == ns.len(),
            forall|t: int| 0 <= t < soffs.len() ==> offs@[t] as int == #[trigger] soffs[t],
            forall|t: int| 0 <= t < ns.len() ==> #[trigger] names@[t]@ == ns[t],
            entries@.len() == i,
            forall|t: int| 0 <= t < i ==> #[trigger] entries@[t]@ == spec_entry(buf@, base as int, data_off as int, data_size as int, soffs, ns, t),
        decreases count - i,
    {
        let off = offs[i];
        let end = if i + 1 < count { offs[i + 1] } else { data_size };
        let len = if end >= off { end - off } else { 0 };
        let data: Vec<u8> = if base <= buf.len() && data_off <= buf.len() - base && off <= buf.len() - base - data_off
            && len <= buf.len() - base - data_off - off {
            let abs = base + data_off + off;
            slice_to_vec(&buf[abs..abs + len])
        } else {
            Vec::new()
        };
        let name = latin1_string(names[i].as_slice());
        let e = ResEntry { name, off, size: len, data };
        proof {
            let se = spec_entry(buf@, base as int, data_off as int, data_size as int, soffs, ns, i as int);
            assert(e@.data =~= se.data);
            assert(e@.name =~= se.name);
        }
        entries.push(e);
        i = i + 1;
    }
    entries
}

/// Parse the resource archive of `size` bytes at `base`.  `Ok(None)` when the bytes do not
/// look like an archive (too small, unknown magic, an empty or absurd entry count).
pub fn parse_res(buf: &[u8], base: usize, size: usize, variant: bool) -> (r: Result<Option<ResArchive>, CbeError>)
    ensures
        res_result_matches(r, spec_parse_res(buf@, base as int, size as int, variant)),
{
    if size < 0x1C {
        return Ok(None);
    }
    let (index_size, data_size, count, hdr, isz_at) = match read_header(buf, base, variant)? {
        Some(h) => h,
        None => return Ok(None),
    };
    let ghost h = spec_res_header(buf@, base as int, variant)->Ok_0->Some_0;
    if count == 0 || count > 0x10000 {
        return Ok(None);
    }
    let data_off64: u64 = isz_at as u64 + 4 + index_size as u64;
    if data_off64 + data_size as u64 != size as u64 {
        return Err(CbeError::SizeMismatch { data_off: data_off64 as usize, data_size, size });
    }
    let data_off = data_off64 as usize;
    let offs = read_offsets(buf, base, hdr, count - 1)?;
    let ghost rest = spec_offsets(buf@, base + hdr, (count - 1) as nat)->Ok_0;
    let (names, o) = read_names(buf, base, hdr + 4 * (count - 1), count)?;
    let ghost ns = spec_names(buf@, base + hdr + 4 * (count - 1), count as nat)->Ok_0.0;
    if o - base != data_off {
        return Err(CbeError::NameTableEnd { end: o - base, expected: data_off });
    }
    let ghost soffs = seq![0int] + rest.map_values(|v: u32| v as int);
    proof {
        assert forall|t: int| 0 <= t < soffs.len() implies offs@[t] as int == #[trigger] soffs[t] by {
            if t > 0 {
                assert(offs@[t] == rest.map_values(|v: u32| v as usize)[t - 1]);
            }
        }
    }
    let entries = build_entries(buf, base, data_off, data_size, &offs, &names, Ghost(soffs), Ghost(ns));
    let a = ResArchive { base, size, count, data_off, data_size, entries };
    proof {
        let sa = spec_res_body(buf@, base as int, size as int, h)->Ok_0->Some_0;
        assert(a@.entries =~= sa.entries);
    }
    Ok(Some(a))
}

proof fn lemma_offsets_err_prop(buf: Seq<u8>, at: int, k: nat, n: nat)
    requires
        k <= n,
        spec_offsets(buf, at, k) is Err,
    ensures
        spec_offsets(buf, at, n) == spec_offsets(buf, at, k),
    decreases n - k,
{
    if k < n {
        lemma_offsets_err_prop(buf, at, k, (n - 1) as nat);
    }
}

proof fn lemma_names_err_prop(buf: Seq<u8>, o: int, k: nat, n: nat)
    requires
        k <= n,
        spec_names(buf, o, k) is Err,
    ensures
        spec_names(buf, o, n) == spec_names(buf, o, k),
    decreases n - k,
{
    if k < n {
        lemma_names_err_prop(buf, o, k, (n - 1) as nat);
    }
}

} // verus!

verus! {

// ---------------------------------------------------------------------------
// Multi-packages: a count, then (name, offset) pairs, then sub-archives.

/// The scan of a multi-package directory: entries read so far, where the next one
/// starts, and whether the scan has stopped.
pub struct MultiScan {
    pub ents: Seq<(Seq<u8>, int)>,
    pub o: int,
    pub stopped: bool,
}

/// A name of a multi-package entry holds printable ASCII only.
pub open spec fn printable(nm: Seq<u8>) -> bool {
    forall|t: int| 0 <= t < nm.len() ==> 32 <= #[trigger] nm[t] < 127
}

/// One step of the directory scan; `None` when the directory runs past the buffer.
pub open spec fn multi_step(buf: Seq<u8>, base: int, size: int, st: MultiScan) -> Option<MultiScan> {
    let o = st.o;
    if st.stopped {
        Some(st)
    } else if o >= base + size {
        Some(MultiScan { stopped: true, ..st })
    } else if !(0 <= o < buf.len()) {
        None
    } else {
        let ln = buf[o] as int;
        if ln == 0 || ln > 48 || o + 1 + ln + 4 > base + size {
            Some(MultiScan { stopped: true, ..st })
        } else if o + 1 + ln > buf.len() {
            None
        } else {
            let nm = buf.subrange(o + 1, o + 1 + ln);
            if !printable(nm) {
                Some(MultiScan { stopped: true, ..st })
            } else {
                match spec_le32(buf, o + 1 + ln) {
                    None => None,
                    Some(off) => if off >= size {
                        Some(MultiScan { ents: st.ents, o: o + 1 + ln + 4, stopped: true })
                    } else {
                        Some(MultiScan { ents: st.ents.push((nm, off as int)), o: o + 1 + ln + 4, stopped: false })
                    },
                }
            }
        }
    }
}

/// The directory scan after `n` steps.
pub open spec fn multi_scan(buf: Seq<u8>, base: int, size: int, n: nat) -> Option<MultiScan>
    decreases n,
{
    if n == 0 {
        Some(MultiScan { ents: Seq::empty(), o: base + 12, stopped: false })
    } else {
        match multi_scan(buf, base, size, (n - 1) as nat) {
            None => None,
            Some(st) => multi_step(buf, base, size, st),
        }
    }
}

/// The sub-archives of the first `k` directory entries that parse as archives.
pub open spec fn spec_packs(buf: Seq<u8>, base: int, size: int, ents: Seq<(Seq<u8>, int)>, k: nat) -> Seq<(Seq<char>, SpecArchive)>
    decreases k,
{
    if k == 0 || k > ents.len() {
        Seq::empty()
    } else {
        let i = k - 1;
        let off = ents[i].1;
        let next = if i + 1 < ents.len() { ents[i + 1].1 } else { size };
        let prev = spec_packs(buf, base, size, ents, (k - 1) as nat);
        match spec_parse_res(buf, base + off, next - off, true) {
            Ok(Some(a)) => prev.push((latin1(ents[i].0), a)),
            _ => prev,
        }
    }
}

/// What `parse_multi` returns for the multi-package of `size` bytes at `base`:
/// the named sub-archives, then the root archive (empty name) that may sit between
/// the directory and the first sub-archive.
pub open spec fn spec_parse_multi(buf: Seq<u8>, base: int, size: int) -> Option<Seq<(Seq<char>, SpecArchive)>> {
    if size < 16 {
        None
    } else {
        match spec_le32(buf, base + 8) {
            None => None,
            Some(count) => if count == 0 || count >= 512 {
                None
            } else {
                match multi_scan(buf, base, size, count as nat) {
                    None => None,
                    Some(st) => if st.ents.len() == 0 {
                        None
                    } else {
                        let packs = spec_packs(buf, base, size, st.ents, st.ents.len());
                        let root_off = st.o - base;
                        let all = if st.ents.len() < count && root_off < st.ents[0].1 {
                            match spec_parse_res(buf, st.o, st.ents[0].1 - root_off, true) {
                                Ok(Some(a)) => packs.push((Seq::<char>::empty(), a)),
                                _ => packs,
                            }
                        } else {
                            packs
                        };
                        if all.len() == 0 { None } else { Some(all) }
                    },
                }
            },
        }
    }
}

/// The value of a list of named archives.
pub open spec fn packs_view(p: Seq<(String, ResArchive)>) -> Seq<(Seq<char>, SpecArchive)> {
    p.map_values(|x: (String, ResArchive)| (x.0@, x.1@))
}

proof fn lemma_scan_none_prop(buf: Seq<u8>, base: int, size: int, k: nat, n: nat)
    requires
        k <= n,
        multi_scan(buf, base, size, k) is None,
    ensures
        multi_scan(buf, base, size, n) is None,
    decreases n - k,
{
    if k < n {
        lemma_scan_none_prop(buf, base, size, k, (n - 1) as nat);
    }
}

proof fn lemma_scan_stopped_prop(buf: Seq<u8>, base: int, size: int, k: nat, n: nat)
    requires
        k <= n,
        multi_scan(buf, base, size, k) matches Some(st) && st.stopped,
    ensures
        multi_scan(buf, base, size, n) == multi_scan(buf, base, size, k),
    decreases n - k,
{
    if k < n {
        lemma_scan_stopped_prop(buf, base, size, k, (n - 1) as nat);
    }
}

fn all_printable(nm: &[u8]) -> (r: bool)
    ensures
        r == printable(nm@),
{
    let mut i: usize = 0;
    while i < nm.len()
        invariant
            i <= nm.len(),
            forall|t: int| 0 <= t < i ==> 32 <= #[trigger] nm@[t] < 127,
        decreases nm.len() - i,
    {
        if !(32 <= nm[i] && nm[i] < 127) {
            return false;
        }
        i = i + 1;
    }
    true
}

/// Scan the directory of a multi-package with `count` entries: the names and offsets
/// of the entries read, and where the scan stopped; `None` when it runs past the buffer.
fn scan_dir(buf: &[u8], base: usize, size: usize, count: usize) -> (r: Option<(Vec<Vec<u8>>, Vec<usize>, usize)>)
    requires
        0 < count < 512,
        size >= 16,
    ensures
        match multi_scan(buf@, base as int, size as int, count as nat) {
            None => r is None,
            Some(st) => r matches Some((names, offs, o)) && o == st.o && names@.len() == st.ents.len()
                && offs@.len() == st.ents.len() && o >= base
                && (forall|t: int| 0 <= t < names@.len() ==> #[trigger] names@[t]@ == st.ents[t].0)
                && (forall|t: int| 0 <= t < offs@.len() ==> #[trigger] offs@[t] as int == st.ents[t].1)
                && (forall|t: int| 0 <= t < offs@.len() ==> #[trigger] offs@[t] < size),
        },
{
    if base > usize::MAX - 12 {
        // the directory would start past any buffer
        proof {
            assert(buf@.len() == buf.len());
            let st0 = multi_scan(buf@, base as int, size as int, 0)->Some_0;
            assert(multi_scan(buf@, base as int, size as int, 1) == multi_step(buf@, base as int, size as int, st0));
            if multi_scan(buf@, base as int, size as int, 1) is None {
                lemma_scan_none_prop(buf@, base as int, size as int, 1, count as nat);
            } else {
                lemma_scan_stopped_prop(buf@, base as int, size as int, 1, count as nat);
            }
        }
        if 12 >= size {
            return Some((Vec::new(), Vec::new(), 0));
        }
        return None;
    }
    let mut o: usize = base + 12;
    let mut names: Vec<Vec<u8>> = Vec::new();
    let mut offs: Vec<usize> = Vec::new();
    let mut k: usize = 0;
    let mut stopped = false;
    while k < count && !stopped
        invariant
            k <= count < 512,
            size >= 16,
            o >= base,
            multi_scan(buf@, base as int, size as int, k as nat) is Some,
            multi_scan(buf@, base as int, size as int, k as nat)->Some_0.o == o as int,
            multi_scan(buf@, base as int, size as int, k as nat)->Some_0.stopped == stopped,
            multi_scan(buf@, base as int, size as int, k as nat)->Some_0.ents.len() == names@.len(),
            names@.len() == offs@.len(),
            forall|t: int| 0 <= t < names@.len() ==> #[trigger] names@[t]@ == multi_scan(buf@, base as int, size as int, k as nat)->Some_0.ents[t].0,
            forall|t: int| 0 <= t < offs@.len() ==> #[trigger] offs@[t] as int == multi_scan(buf@, base as int, size as int, k as nat)->Some_0.ents[t].1,
            forall|t: int| 0 <= t < offs@.len() ==> #[trigger] offs@[t] < size,
        decreases count - k,
    {
        let ghost st = multi_scan(buf@, base as int, size as int, k as nat)->Some_0;
        proof { assert(multi_scan(buf@, base as int, size as int, (k + 1) as nat) == multi_step(buf@, base as int, size as int, st)); }
        let ghost names0 = names@;
        let ghost offs0 = offs@;
        if o - base >= size {
            stopped = true;
        } else if o >= buf.len() {
            proof { lemma_scan_none_prop(buf@, base as int, size as int, (k + 1) as nat, count as nat); }
            return None;
        } else {
            let ln = buf[o] as usize;
            let room = size - (o - base);
            if ln == 0 || ln > 48 || ln + 5 > room {
                stopped = true;
            } else if ln + 1 > buf.len() - o {
                proof { lemma_scan_none_prop(buf@, base as int, size as int, (k + 1) as nat, count as nat); }
                return None;
            } else {
                let nm = &buf[o + 1..o + 1 + ln];
                if !all_printable(nm) {
                    stopped = true;
                } else {
                    let off = match u32le(buf, o + 1 + ln) {
                        Ok(v) => v as usize,
                        Err(_) => {
                            proof { lemma_scan_none_prop(buf@, base as int, size as int, (k + 1) as nat, count as nat); }
                            return None;
                        },
                    };
                    o = o + 1 + ln + 4;
                    if off >= size {
                        stopped = true;
                    } else {
                        names.push(slice_to_vec(nm));
                        offs.push(off);
                        proof {
                            let st2 = multi_scan(buf@, base as int, size as int, (k + 1) as nat)->Some_0;
                            assert forall|t: int| 0 <= t < names@.len() implies #[trigger] names@[t]@ == st2.ents[t].0 by {
                                if t < names0.len() { assert(names@[t] == names0[t]); }
                            }
                            assert forall|t: int| 0 <= t < offs@.len() implies #[trigger] offs@[t] as int == st2.ents[t].1 by {
                                if t < offs0.len() { assert(offs@[t] == offs0[t]); }
                            }
                        }
                    }
                }
            }
        }
        k = k + 1;
    }
    proof {
        if stopped {
            lemma_scan_stopped_prop(buf@, base as int, size as int, k as nat, count as nat);
        }
    }
    Some((names, offs, o))
}

/// The sub-archives named by a scanned directory that parse as archives.
fn build_packs(buf: &[u8], base: usize, size: usize, names: &Vec<Vec<u8>>, offs: &Vec<usize>, Ghost(ents): Ghost<Seq<(Seq<u8>, int)>>) -> (r: Vec<(String, ResArchive)>)
    requires
        names@.len() == offs@.len() == ents.len(),
        forall|t: int| 0 <= t < names@.len() ==> #[trigger] names@[t]@ == ents[t].0,
        forall|t: int| 0 <= t < offs@.len() ==> #[trigger] offs@[t] as int == ents[t].1,
        forall|t: int| 0 <= t < offs@.len() ==> #[trigger] offs@[t] < size,
    ensures
        packs_view(r@) == spec_packs(buf@, base as int, size as int, ents, ents.len()),
{
    let n = names.len();
    let mut packs: Vec<(String, ResArchive)> = Vec::new();
    let mut i: usize = 0;
    while i < n
        invariant
            i <= n,
            n == names@.len() == offs@.len() == ents.len(),
            forall|t: int| 0 <= t < n ==> #[trigger] names@[t]@ == ents[t].0,
            forall|t: int| 0 <= t < n ==> #[trigger] offs@[t] as int == ents[t].1,
            forall|t: int| 0 <= t < n ==> #[trigger] offs@[t] < size,
            packs_view(packs@) == spec_packs(buf@, base as int, size as int, ents, i as nat),
        decreases n - i,
    {
        let off = offs[i];
        let next = if i + 1 < n { offs[i + 1] } else { size };
        let ghost prev = packs@;
        if next >= off && base <= usize::MAX - off {
            match parse_res(buf, base + off, next - off, true) {
                Ok(Some(a)) => {
                    let nm = latin1_string(names[i].as_slice());
                    packs.push((nm, a));
                    proof { assert(packs_view(packs@) =~= packs_view(prev).push((latin1(ents[i as int].0), a@))); }
                },
                _ => {},
            }
        } else if next >= off {
            // base + off lies past any buffer: the archive header cannot be read
            proof {
                assert(buf@.len() == buf.len());
                assert(spec_le32(buf@, base + off) is None);
                assert(spec_le32(buf@, base + off + 0) is None);
            }
        }
        i = i + 1;
    }
    packs
}

/// Parse a multi-package: a directory of named sub-archives (and possibly an unnamed
/// root archive).  `None` when the bytes hold no such package or no archive in it parses.
pub fn parse_multi(buf: &[u8], base: usize, size: usize) -> (r: Option<Vec<(String, ResArchive)>>)
    ensures
        match spec_parse_multi(buf@, base as int, size as int) {
            None => r is None,
            Some(ps) => r matches Some(v) && packs_view(v@) == ps,
        },
{
    if size < 16 {
        return None;
    }
    let count = match le_at(buf, base, 8) {
        Ok(c) => c as usize,
        Err(_) => return None,
    };
    if count == 0 || count >= 512 {
        return None;
    }
    let (names, offs, o) = match scan_dir(buf, base, size, count) {
        Some(t) => t,
        None => return None,
    };
    let ghost st = multi_scan(buf@, base as int, size as int, count as nat)->Some_0;
    if names.len() == 0 {
        return None;
    }
    let n = names.len();
    let mut packs = build_packs(buf, base, size, &names, &offs, Ghost(st.ents));
    let root_off = o - base;
    if n < count && root_off < offs[0] {
        match parse_res(buf, o, offs[0] - root_off, true) {
            Ok(Some(a)) => {
                let ghost prev = packs@;
                packs.push((String::new(), a));
                proof { assert(packs_view(packs@) =~= packs_view(prev).push((Seq::<char>::empty(), a@))); }
            },
            _ => {},
        }
    }
    if packs.len() == 0 {
        None
    } else {
        Some(packs)
    }
}

// ---------------------------------------------------------------------------
// Byte order

/// Non-overlapping occurrences (scanning left to right) of the 4-byte pattern from `i` on.
pub open spec fn spec_count_fixed(d: Seq<u8>, pat: Seq<u8>, i: int) -> nat
    decreases d.len() - i,
{
    if i < 0 || i + 4 > d.len() {
        0
    } else if d.subrange(i, i + 4) == pat {
        1 + spec_count_fixed(d, pat, i + 4)
    } else {
        spec_count_fixed(d, pat, i + 1)
    }
}

/// Whether the four bytes at `i` encode an ARM `push {..., lr}` (STMDB sp!) in the given order.
pub open spec fn push_at(d: Seq<u8>, i: int, be: bool) -> bool {
    if be {
        d[i] == 0xE9 && d[i + 1] == 0x2D && 0x40 <= d[i + 2] <= 0x4F
    } else {
        0x40 <= d[i + 1] <= 0x4F && d[i + 2] == 0x2D && d[i + 3] == 0xE9
    }
}

/// Non-overlapping `push` instructions of the given byte order from `i` on.
pub open spec fn spec_count_push(d: Seq<u8>, be: bool, i: int) -> nat
    decreases d.len() - i,
{
    if i < 0 || i + 4 > d.len() {
        0
    } else if push_at(d, i, be) {
        1 + spec_count_push(d, be, i + 4)
    } else {
        spec_count_push(d, be, i + 1)
    }
}

/// `bx lr` in little-endian order.
pub open spec fn bxlr_le() -> Seq<u8> { seq![0x1Eu8, 0xFF, 0x2F, 0xE1] }

/// `bx lr` in big-endian order.
pub open spec fn bxlr_be() -> Seq<u8> { seq![0xE1u8, 0x2F, 0xFF, 0x1E] }

/// The byte order whose `bx lr` and `push` instructions occur at least as often (ties: LE).
pub open spec fn spec_detect_endian(d: Seq<u8>) -> Endian {
    let le = spec_count_fixed(d, bxlr_le(), 0) + spec_count_push(d, false, 0);
    let be = spec_count_fixed(d, bxlr_be(), 0) + spec_count_push(d, true, 0);
    if le >= be { Endian::Le } else { Endian::Be }
}

fn count_fixed(d: &[u8], pat: [u8; 4]) -> (n: usize)
    ensures
        n == spec_count_fixed(d@, pat@, 0),
{
    let mut n: usize = 0;
    let mut i: usize = 0;
    while i <= d.len() && 4 <= d.len() - i
        invariant
            i <= d.len() + 4,
            n <= i,
            n + spec_count_fixed(d@, pat@, i as int) == spec_count_fixed(d@, pat@, 0),
        decreases d.len() + 4 - i,
    {
        if d[i] == pat[0] && d[i + 1] == pat[1] && d[i + 2] == pat[2] && d[i + 3] == pat[3] {
            proof { assert(d@.subrange(i as int, i + 4) =~= pat@); }
            n = n + 1;
            i = i + 4;
        } else {
            proof {
                assert(d@.subrange(i as int, i + 4)[0] == d@[i as int]);
                assert(d@.subrange(i as int, i + 4)[1] == d@[i + 1]);
                assert(d@.subrange(i as int, i + 4)[2] == d@[i + 2]);
                assert(d@.subrange(i as int, i + 4)[3] == d@[i + 3]);
            }
            i = i + 1;
        }
    }
    n
}

fn count_push(d: &[u8], be: bool) -> (n: usize)
    ensures
        n == spec_count_push(d@, be, 0),
{
    let mut n: usize = 0;
    let mut i: usize = 0;
    while i <= d.len() && 4 <= d.len() - i
        invariant
            i <= d.len() + 4,
            n <= i,
            n + spec_count_push(d@, be, i as int) == spec_count_push(d@, be, 0),
        decreases d.len() + 4 - i,
    {
        let hit = if be {
            d[i] == 0xE9 && d[i + 1] == 0x2D && 0x40 <= d[i + 2] && d[i + 2] <= 0x4F
        } else {
            0x40 <= d[i + 1] && d[i + 1] <= 0x4F && d[i + 2] == 0x2D && d[i + 3] == 0xE9
        };
        if hit {
            n = n + 1;
            i = i + 4;
        } else {
            i = i + 1;
        }
    }
    n
}

/// Guess the byte order of the module's ARM code from `bx lr` and `push` encodings.
pub fn detect_endian(d: &[u8]) -> (e: Endian)
    ensures
        e == spec_detect_endian(d@),
{
    let le = count_fixed(d, [0x1E, 0xFF, 0x2F, 0xE1]) as u128 + count_push(d, false) as u128;
    let be = count_fixed(d, [0xE1, 0x2F, 0xFF, 0x1E]) as u128 + count_push(d, true) as u128;
    proof {
        let a: [u8; 4] = [0x1E, 0xFF, 0x2F, 0xE1];
        assert(a@ =~= bxlr_le());
        let b: [u8; 4] = [0xE1, 0x2F, 0xFF, 0x1E];
        assert(b@ =~= bxlr_be());
    }
    if le >= be {
        Endian::Le
    } else {
        Endian::Be
    }
}

} // verus!

verus! {

// ---------------------------------------------------------------------------
// Modules

/// A loaded CBE module: its header values, RO and RW segments, and resources.
#[derive(Debug)]
pub struct CbeModule {
    pub path: String,
    pub raw: Vec<u8>,
    pub name: String,
    pub load_base: u32,
    pub image_size: u32,
    pub image_end: u32,
    pub rw_size: u32,
    pub ro: Vec<u8>,
    pub rw: Vec<u8>,
    pub ro_off: usize,
    pub rw_off: usize,
    pub ro_chk: u32,
    pub rw_chk: u32,
    pub endian: Endian,
    pub icons: Option<ResArchive>,
    pub res: Option<ResArchive>,
    pub packages: Vec<(String, ResArchive)>,
}

/// The mathematical value of a module.
pub struct SpecModule {
    pub path: Seq<char>,
    pub raw: Seq<u8>,
    pub name: Seq<char>,
    pub load_base: u32,
    pub image_size: u32,
    pub image_end: u32,
    pub rw_size: u32,
    pub ro: Seq<u8>,
    pub rw: Seq<u8>,
    pub ro_off: int,
    pub rw_off: int,
    pub ro_chk: u32,
    pub rw_chk: u32,
    pub endian: Endian,
    pub icons: Option<SpecArchive>,
    pub res: Option<SpecArchive>,
    pub packages: Seq<(Seq<char>, SpecArchive)>,
}

/// The value of an optional archive.
pub open spec fn opt_view(a: Option<ResArchive>) -> Option<SpecArchive> {
    match a {
        Some(x) => Some(x@),
        None => None,
    }
}

impl View for CbeModule {
    type V = SpecModule;

    open spec fn view(&self) -> SpecModule {
        SpecModule {
            path: self.path@,
            raw: self.raw@,
            name: self.name@,
            load_base: self.load_base,
            image_size: self.image_size,
            image_end: self.image_end,
            rw_size: self.rw_size,
            ro: self.ro@,
            rw: self.rw@,
            ro_off: self.ro_off as int,
            rw_off: self.rw_off as int,
            ro_chk: self.ro_chk,
            rw_chk: self.rw_chk,
            endian: self.endian,
            icons: opt_view(self.icons),
            res: opt_view(self.res),
            packages: packs_view(self.packages@),
        }
    }
}

/// `n` big-endian fields, each preceded by 0xFE padding, from `start`; header fields
/// report which one failed.
pub open spec fn spec_read_fields(d: Seq<u8>, start: int, n: nat, header: bool) -> Result<(Seq<u32>, int), CbeError>
    decreases n,
{
    if n == 0 {
        Ok((Seq::empty(), start))
    } else {
        match spec_read_fields(d, start, (n - 1) as nat, header) {
            Err(e) => Err(e),
            Ok((vs, o)) => {
                let p = spec_skip_fe(d, o);
                match spec_be32(d, p) {
                    None => Err(if header { CbeError::HeaderField { index: (n - 1) as usize, at: p as usize } } else { CbeError::ReadBe(p as usize) }),
                    Some(v) => Ok((vs.push(v), p + 4)),
                }
            },
        }
    }
}

/// Index of the last archive with the largest entry count among the first `k`.
pub open spec fn last_max(ps: Seq<(Seq<char>, SpecArchive)>, k: nat) -> int
    decreases k,
{
    if k <= 1 {
        0
    } else if ps[k - 1].1.count >= ps[last_max(ps, (k - 1) as nat)].1.count {
        k - 1
    } else {
        last_max(ps, (k - 1) as nat)
    }
}

/// Whether `d` ends with the `CoolBars` trailer.
pub open spec fn has_trailer(d: Seq<u8>) -> bool {
    d.len() >= 8 && d.subrange(d.len() - 8, d.len() as int) == MAGIC_TAIL@
}

/// The archive value of a parse that may have failed (failures count as no archive).
pub open spec fn res_or_none(r: Result<Option<SpecArchive>, CbeError>) -> Option<SpecArchive> {
    match r {
        Ok(x) => x,
        Err(_) => None,
    }
}

/// The resources of a module once the archive at `res_off` is known: a plain archive,
/// or else the largest archive of a multi-package together with all its packages.
pub open spec fn spec_module_res(d: Seq<u8>, res_off: int, res_size: int) -> (Option<SpecArchive>, Seq<(Seq<char>, SpecArchive)>) {
    let r1 = res_or_none(spec_parse_res(d, res_off, res_size, false));
    if r1 is Some {
        (r1, Seq::empty())
    } else {
        match spec_parse_multi(d, res_off, res_size) {
            Some(p) => (Some(p[last_max(p, p.len())].1), p),
            None => (None, Seq::empty()),
        }
    }
}

/// What `load_bytes` returns for the file at `path` holding `d`.
pub open spec fn spec_load(path: Seq<char>, d: Seq<u8>) -> Result<SpecModule, CbeError> {
    let len = d.len() as int;
    if !has_trailer(d) {
        Err(CbeError::NoTrailer)
    } else if len < 56 {
        Err(CbeError::TooSmall(len as usize))
    } else {
        let foot = spec_be32(d, len - 12)->Some_0 as int;
        if foot != len - 44 {
            Err(CbeError::FooterOffset { foot: foot as usize, expected: (len - 44) as usize })
        } else {
            match spec_read_fields(d, 0, 5, true) {
                Err(e) => Err(e),
                Ok((vals, o1)) => {
                    let o2 = spec_skip_fe(d, o1);
                    let nl = vals[4] as int;
                    if o2 + nl > len {
                        Err(CbeError::ModuleNameOob)
                    } else {
                        match spec_read_fields(d, o2 + nl, 6, false) {
                            Err(e) => Err(e),
                            Ok((sizes, o4)) => {
                                let ro_off = spec_skip_fe(d, o4);
                                let rw_off = spec_skip_fe(d, ro_off + sizes[0] as int);
                                let ico_off = spec_skip_fe(d, rw_off + sizes[2] as int);
                                let e = spec_skip_fe(d, ico_off + sizes[4] as int);
                                match spec_be32(d, e) {
                                    None => Err(CbeError::ReadBe(e as usize)),
                                    Some(res_size) => {
                                        let res_off = spec_skip_fe(d, e + 4);
                                        let (res, packages) = spec_module_res(d, res_off, res_size as int);
                                        if ro_off + sizes[0] as int > len {
                                            Err(CbeError::RoOob)
                                        } else if rw_off + sizes[2] as int > len {
                                            Err(CbeError::RwOob)
                                        } else {
                                            Ok(SpecModule {
                                                path,
                                                raw: d,
                                                name: latin1(d.subrange(o2, o2 + nl)),
                                                load_base: vals[0],
                                                image_size: vals[1],
                                                image_end: vals[2],
                                                rw_size: vals[3],
                                                ro: d.subrange(ro_off, ro_off + sizes[0] as int),
                                                rw: d.subrange(rw_off, rw_off + sizes[2] as int),
                                                ro_off,
                                                rw_off,
                                                ro_chk: sizes[1],
                                                rw_chk: sizes[3],
                                                endian: spec_detect_endian(d),
                                                icons: res_or_none(spec_parse_res(d, ico_off, sizes[4] as int, false)),
                                                res,
                                                packages,
                                            })
                                        }
                                    },
                                }
                            },
                        }
                    }
                },
            }
        }
    }
}

/// `skip_fe` for an offset that may lie past the end of the buffer (and past usize).
fn skip_fe_wide(buf: &[u8], o: u128) -> (r: u128)
    ensures
        r == spec_skip_fe(buf@, o as int),
        r >= o,
        o <= buf@.len() ==> r <= buf@.len(),
        o > buf@.len() ==> r == o,
{
    proof { lemma_skip_fe_ge(buf@, o as int); }
    if o >= buf.len() as u128 {
        o
    } else {
        skip_fe(buf, o as usize) as u128
    }
}

fn be_at(buf: &[u8], at: u128) -> (r: Option<u32>)
    ensures
        r == spec_be32(buf@, at as int),
{
    if at <= buf.len() as u128 && 4 <= buf.len() as u128 - at {
        match u32be(buf, at as usize) {
            Ok(v) => Some(v),
            Err(_) => None,
        }
    } else {
        None
    }
}

fn read_fields(d: &[u8], start: u128, n: usize, header: bool) -> (r: Result<(Vec<u32>, u128), CbeError>)
    requires
        n <= 6,
        start <= d@.len() + 8,
    ensures
        match spec_read_fields(d@, start as int, n as nat, header) {
            Err(e) => r == Err::<(Vec<u32>, u128), CbeError>(e),
            Ok((vs, o)) => r matches Ok((v, p)) && v@ == vs && p == o && p <= d@.len() + 8 && v@.len() == n,
        },
{
    let dl = d.len();
    let mut vals: Vec<u32> = Vec::new();
    let mut o: u128 = start;
    let mut i: usize = 0;
    while i < n
        invariant
            i <= n <= 6,
            o <= d@.len() + 8,
            dl == d@.len(),
            vals@.len() == i,
            spec_read_fields(d@, start as int, i as nat, header) == Ok::<(Seq<u32>, int), CbeError>((vals@, o as int)),
        decreases n - i,
    {
        let p = skip_fe_wide(d, o);
        match be_at(d, p) {
            None => {
                proof { lemma_fields_err_prop(d@, start as int, (i + 1) as nat, n as nat, header); }
                if header {
                    return Err(CbeError::HeaderField { index: i, at: p as usize });
                } else {
                    return Err(CbeError::ReadBe(p as usize));
                }
            },
            Some(v) => {
                vals.push(v);
                o = p + 4;
            },
        }
        i = i + 1;
    }
    Ok((vals, o))
}

proof fn lemma_fields_err_prop(d: Seq<u8>, start: int, k: nat, n: nat, header: bool)
    requires
        k <= n,
        spec_read_fields(d, start, k, header) is Err,
    ensures
        spec_read_fields(d, start, n, header) == spec_read_fields(d, start, k, header),
    decreases n - k,
{
    if k < n {
        lemma_fields_err_prop(d, start, k, (n - 1) as nat, header);
    }
}

/// A copy of an archive.
pub fn copy_archive(a: &ResArchive) -> (r: ResArchive)
    ensures
        r@ == a@,
{
    let mut entries: Vec<ResEntry> = Vec::new();
    let mut i: usize = 0;
    while i < a.entries.len()
        invariant
            i <= a.entries@.len(),
            entries@.len() == i,
            forall|t: int| 0 <= t < i ==> #[trigger] entries@[t]@ == a.entries@[t]@,
        decreases a.entries@.len() - i,
    {
        let e = &a.entries[i];
        entries.push(ResEntry { name: copy_string(&e.name), off: e.off, size: e.size, data: slice_to_vec(e.data.as_slice()) });
        i = i + 1;
    }
    let r = ResArchive { base: a.base, size: a.size, count: a.count, data_off: a.data_off, data_size: a.data_size, entries };
    proof { assert(r@.entries =~= a@.entries); }
    r
}

fn pick_largest(p: &Vec<(String, ResArchive)>) -> (r: ResArchive)
    requires
        p@.len() > 0,
    ensures
        r@ == packs_view(p@)[last_max(packs_view(p@), p@.len())].1,
{
    let ghost ps = packs_view(p@);
    let mut best: usize = 0;
    let mut i: usize = 1;
    while i < p.len()
        invariant
            1 <= i <= p@.len(),
            ps == packs_view(p@),
            best == last_max(ps, i as nat),
            best < i,
        decreases p@.len() - i,
    {
        if p[i].1.count >= p[best].1.count {
            best = i;
        }
        i = i + 1;
    }
    copy_archive(&p[best].1)
}

fn has_magic_tail(d: &[u8]) -> (r: bool)
    ensures
        r == has_trailer(d@),
{
    if d.len() < 8 {
        return false;
    }
    let n = d.len() - 8;
    let mut i: usize = 0;
    while i < 8
        invariant
            i <= 8,
            n == d@.len() - 8,
            n + 8 == d.len(),
            forall|t: int| 0 <= t < i ==> d@[n + t] == #[trigger] MAGIC_TAIL@[t],
        decreases 8 - i,
    {
        if d[n + i] != MAGIC_TAIL[i] {
            proof { assert(d@.subrange(n as int, d@.len() as int)[i as int] != MAGIC_TAIL@[i as int]); }
            return false;
        }
        i = i + 1;
    }
    proof { assert(d@.subrange(n as int, d@.len() as int) =~= MAGIC_TAIL@); }
    true
}

fn module_res(d: &[u8], res_off: usize, res_size: usize) -> (r: (Option<ResArchive>, Vec<(String, ResArchive)>))
    ensures
        (opt_view(r.0), packs_view(r.1@)) == spec_module_res(d@, res_off as int, res_size as int),
{
    let res1 = match parse_res(d, res_off, res_size, false) {
        Ok(x) => x,
        Err(_) => None,
    };
    if res1.is_some() {
        return (res1, Vec::new());
    }
    match parse_multi(d, res_off, res_size) {
        Some(p) => {
            let best = pick_largest(&p);
            (Some(best), p)
        },
        None => (None, Vec::new()),
    }
}

/// The header of a module: its five values, its name and its six segment sizes,
/// and the offset just past them.
fn read_head(d: &[u8]) -> (r: Result<(Vec<u32>, String, Vec<u32>, u128), CbeError>)
    ensures
        match spec_read_fields(d@, 0, 5, true) {
            Err(e) => r == Err::<(Vec<u32>, String, Vec<u32>, u128), CbeError>(e),
            Ok((vals, o1)) => {
                let o2 = spec_skip_fe(d@, o1);
                let nl = vals[4] as int;
                if o2 + nl > d@.len() {
                    r == Err::<(Vec<u32>, String, Vec<u32>, u128), CbeError>(CbeError::ModuleNameOob)
                } else {
                    match spec_read_fields(d@, o2 + nl, 6, false) {
                        Err(e) => r == Err::<(Vec<u32>, String, Vec<u32>, u128), CbeError>(e),
                        Ok((sizes, o4)) => r matches Ok((v, nm, sz, p)) && v@ == vals && v@.len() == 5
                            && nm@ == latin1(d@.subrange(o2, o2 + nl)) && sz@ == sizes && sz@.len() == 6
                            && p == o4 && p <= d@.len() + 8,
                    }
                }
            },
        },
{
    let dl = d.len();
    let (vals, o1) = read_fields(d, 0, 5, true)?;
    let o2 = skip_fe_wide(d, o1);
    let nl = vals[4] as u128;
    if o2 + nl > d.len() as u128 {
        return Err(CbeError::ModuleNameOob);
    }
    let name = latin1_string(&d[o2 as usize..(o2 + nl) as usize]);
    let (sizes, o4) = read_fields(d, o2 + nl, 6, false)?;
    Ok((vals, name, sizes, o4))
}

/// Read a CBE module from the bytes `d` of the file at `path`.
#[verifier::rlimit(40)]
pub fn load_bytes(path: &str, d: Vec<u8>) -> (r: Result<CbeModule, CbeError>)
    ensures
        match spec_load(path@, d@) {
            Err(e) => r == Err::<CbeModule, CbeError>(e),
            Ok(m) => r matches Ok(x) && x@ == m,
        },
{
    if !has_magic_tail(d.as_slice()) {
        return Err(CbeError::NoTrailer);
    }
    let len = d.len();
    if len < FOOTER_LEN + 12 {
        return Err(CbeError::TooSmall(len));
    }
    let foot = match u32be(d.as_slice(), len - 12) {
        Ok(v) => v as usize,
        Err(e) => return Err(e),
    };
    if foot != len - FOOTER_LEN {
        return Err(CbeError::FooterOffset { foot, expected: len - FOOTER_LEN });
    }
    let (vals, name, sizes, o4) = read_head(d.as_slice())?;
    let ro_sz = sizes[0] as u128;
    let rw_sz = sizes[2] as u128;
    let ico_sz = sizes[4] as u128;
    let ro_off = skip_fe_wide(d.as_slice(), o4);
    let rw_off = skip_fe_wide(d.as_slice(), ro_off + ro_sz);
    let ico_off = skip_fe_wide(d.as_slice(), rw_off + rw_sz);
    let e = skip_fe_wide(d.as_slice(), ico_off + ico_sz);
    let res_size = match be_at(d.as_slice(), e) {
        Some(v) => v as usize,
        None => return Err(CbeError::ReadBe(e as usize)),
    };
    let res_off = skip_fe_wide(d.as_slice(), e + 4);
    let (res, packages) = module_res(d.as_slice(), res_off as usize, res_size);
    if ro_off + ro_sz > len as u128 {
        return Err(CbeError::RoOob);
    }
    if rw_off + rw_sz > len as u128 {
        return Err(CbeError::RwOob);
    }
    let ro = slice_to_vec(&d.as_slice()[ro_off as usize..(ro_off + ro_sz) as usize]);
    let rw = slice_to_vec(&d.as_slice()[rw_off as usize..(rw_off + rw_sz) as usize]);
    let icons = match parse_res(d.as_slice(), ico_off as usize, ico_sz as usize, false) {
        Ok(x) => x,
        Err(_) => None,
    };
    let endian = detect_endian(d.as_slice());
    let path_s = String::from_str(path);
    Ok(CbeModule {
        path: path_s,
        raw: d,
        name,
        load_base: vals[0],
        image_size: vals[1],
        image_end: vals[2],
        rw_size: vals[3],
        ro,
        rw,
        ro_off: ro_off as usize,
        rw_off: rw_off as usize,
        ro_chk: sizes[1],
        rw_chk: sizes[3],
        endian,
        icons,
        res,
        packages,
    })
}

} // verus!

verus! {

// ---------------------------------------------------------------------------
// Laws of the container format

proof fn lemma_offsets_len(buf: Seq<u8>, at: int, n: nat)
    ensures
        spec_offsets(buf, at, n) matches Ok(s) ==> s.len() == n,
    decreases n,
{
    if n > 0 {
        lemma_offsets_len(buf, at, (n - 1) as nat);
    }
}

/// A resource archive: too small (under 0x1C bytes) or, outside a multi-package,
/// with an unknown magic, it is no archive (`Ok(None)`), as is one whose count is 0
/// or over 0x10000. A parsed archive keeps its place and size, holds `count`
/// entries whose data area ends the archive, the first at offset 0, each as long as
/// the gap to the next offset (to the end of the data for the last, 0 for a gap that
/// runs backwards), its bytes taken from the buffer where they lie inside it.
pub proof fn parse_res_law(buf: Seq<u8>, base: int, size: int, variant: bool)
    ensures
        size < 0x1C ==> spec_parse_res(buf, base, size, variant) == Ok::<Option<SpecArchive>, CbeError>(None),
        (size >= 0x1C && !variant && spec_le32(buf, base) is Some && spec_le32(buf, base)->Some_0 != 4 && spec_le32(buf, base)->Some_0 != 8)
            ==> spec_parse_res(buf, base, size, variant) == Ok::<Option<SpecArchive>, CbeError>(None),
        (size >= 0x1C && spec_res_header(buf, base, variant) is Ok && spec_res_header(buf, base, variant)->Ok_0 is Some
            && (spec_res_header(buf, base, variant)->Ok_0->Some_0.count == 0 || spec_res_header(buf, base, variant)->Ok_0->Some_0.count > 0x10000))
            ==> spec_parse_res(buf, base, size, variant) == Ok::<Option<SpecArchive>, CbeError>(None),
        spec_parse_res(buf, base, size, variant) matches Ok(Some(a)) ==> {
            &&& a.base == base && a.size == size
            &&& 1 <= a.count <= 0x10000 && a.entries.len() == a.count
            &&& a.data_off + a.data_size == size
            &&& a.entries[0].off == 0
            &&& forall|i: int| 0 <= i < a.count ==> {
                let off = (#[trigger] a.entries[i]).off;
                let end = if i + 1 < a.count { a.entries[i + 1].off } else { a.data_size };
                &&& a.entries[i].size == (if end >= off { end - off } else { 0 })
                &&& a.entries[i].data == spec_slice_or_empty(buf, base + a.data_off + off, a.entries[i].size)
            }
        },
{
    if size >= 0x1C {
        if let Ok(Some(h)) = spec_res_header(buf, base, variant) {
            if !(h.count == 0 || h.count > 0x10000) {
                lemma_offsets_len(buf, base + h.hdr, (h.count - 1) as nat);
            }
        }
    }
}

/// The errors of a resource archive, in the order they are met: a header field
/// past the buffer, a data area that does not end the archive (`SizeMismatch`), an
/// offset past the buffer, a name or a name length byte past it, and a name table
/// that does not end where the data starts (`NameTableEnd`).
pub proof fn parse_res_errors(buf: Seq<u8>, base: int, size: int, variant: bool)
    ensures
        (size >= 0x1C && spec_res_header(buf, base, variant) is Err)
            ==> spec_parse_res(buf, base, size, variant) == Err::<Option<SpecArchive>, CbeError>(spec_res_header(buf, base, variant)->Err_0),
        (size >= 0x1C && variant && (spec_le32(buf, base) is None || spec_le32(buf, base + 4) is None || spec_le32(buf, base + 8) is None))
            ==> spec_parse_res(buf, base, size, variant) is Err,
        (size >= 0x1C && !variant && spec_le32(buf, base) is None) ==> spec_parse_res(buf, base, size, variant) is Err,
        (size >= 0x1C && spec_res_header(buf, base, variant) is Ok && spec_res_header(buf, base, variant)->Ok_0 is Some) ==> ({
            let h = spec_res_header(buf, base, variant)->Ok_0->Some_0;
            let data_off = h.isz_at + 4 + h.index_size;
            let r = spec_parse_res(buf, base, size, variant);
            &&& (1 <= h.count <= 0x10000 && data_off + h.data_size != size) ==> r == Err::<Option<SpecArchive>, CbeError>(
                CbeError::SizeMismatch { data_off: data_off as usize, data_size: h.data_size as usize, size: size as usize })
            &&& (1 <= h.count <= 0x10000 && data_off + h.data_size == size && spec_offsets(buf, base + h.hdr, (h.count - 1) as nat) is Err)
                ==> r == Err::<Option<SpecArchive>, CbeError>(spec_offsets(buf, base + h.hdr, (h.count - 1) as nat)->Err_0)
            &&& (1 <= h.count <= 0x10000 && data_off + h.data_size == size && spec_offsets(buf, base + h.hdr, (h.count - 1) as nat) is Ok
                && spec_names(buf, base + h.hdr + 4 * (h.count - 1), h.count as nat) is Err)
                ==> r == Err::<Option<SpecArchive>, CbeError>(spec_names(buf, base + h.hdr + 4 * (h.count - 1), h.count as nat)->Err_0)
            &&& (1 <= h.count <= 0x10000 && data_off + h.data_size == size && spec_offsets(buf, base + h.hdr, (h.count - 1) as nat) is Ok
                && spec_names(buf, base + h.hdr + 4 * (h.count - 1), h.count as nat) is Ok
                && spec_names(buf, base + h.hdr + 4 * (h.count - 1), h.count as nat)->Ok_0.1 - base != data_off)
                ==> r is Err
        }),
{
}

/// Module loading refuses a file without the `CoolBars` trailer, one shorter than
/// 56 bytes, and one whose footer offset is not its length less 44; a loaded module
/// keeps the path and the bytes it came from.
pub proof fn load_law(path: Seq<char>, d: Seq<u8>)
    ensures
        !has_trailer(d) ==> spec_load(path, d) == Err::<SpecModule, CbeError>(CbeError::NoTrailer),
        (has_trailer(d) && d.len() < 56) ==> spec_load(path, d) == Err::<SpecModule, CbeError>(CbeError::TooSmall(d.len() as usize)),
        (has_trailer(d) && d.len() >= 56 && spec_be32(d, d.len() - 12)->Some_0 as int != d.len() - 44) ==> spec_load(path, d) is Err,
        spec_load(path, d) matches Ok(m) ==> {
            &&& m.raw == d && m.path == path
            &&& has_trailer(d) && d.len() >= 56
        },
{
}

proof fn lemma_last_max(ps: Seq<(Seq<char>, SpecArchive)>, k: nat)
    requires
        1 <= k <= ps.len(),
    ensures
        0 <= last_max(ps, k) < k,
        forall|j: int| 0 <= j < k ==> #[trigger] ps[j].1.count <= ps[last_max(ps, k)].1.count,
        forall|j: int| last_max(ps, k) < j < k ==> #[trigger] ps[j].1.count < ps[last_max(ps, k)].1.count,
    decreases k,
{
    if k > 1 {
        lemma_last_max(ps, (k - 1) as nat);
    }
}

/// The resources of a module: a plain archive when one parses, with no packages;
/// else, when the block is a multi-package, all its packages, and as resources the
/// last of the archives with the most entries; else none.
pub proof fn module_res_law(d: Seq<u8>, res_off: int, res_size: int)
    ensures
        (spec_parse_res(d, res_off, res_size, false) is Ok && spec_parse_res(d, res_off, res_size, false)->Ok_0 is Some)
            ==> spec_module_res(d, res_off, res_size) == (spec_parse_res(d, res_off, res_size, false)->Ok_0, Seq::<(Seq<char>, SpecArchive)>::empty()),
        !(spec_parse_res(d, res_off, res_size, false) matches Ok(Some(_))) ==> match spec_parse_multi(d, res_off, res_size) {
            Some(p) => {
                let (res, packs) = spec_module_res(d, res_off, res_size);
                &&& packs == p
                &&& p.len() > 0
                &&& exists|i: int| 0 <= i < p.len() && res == Some(p[i].1)
                    && (forall|j: int| 0 <= j < p.len() ==> #[trigger] p[j].1.count <= p[i].1.count)
                    && (forall|j: int| i < j < p.len() ==> #[trigger] p[j].1.count < p[i].1.count)
            },
            None => spec_module_res(d, res_off, res_size) == (None::<SpecArchive>, Seq::<(Seq<char>, SpecArchive)>::empty()),
        },
{
    if !(spec_parse_res(d, res_off, res_size, false) matches Ok(Some(_))) {
        if let Some(p) = spec_parse_multi(d, res_off, res_size) {
            multi_law(d, res_off, res_size);
            lemma_last_max(p, p.len());
            let i = last_max(p, p.len());
            assert(spec_module_res(d, res_off, res_size).0 == Some(p[i].1));
        }
    }
}

/// Whether archive `a` is what the archive parser finds (in the layout used inside
/// multi-packages) somewhere in the buffer.
pub open spec fn parsed_somewhere(buf: Seq<u8>, a: SpecArchive) -> bool {
    exists|off: int, len: int| #[trigger] spec_parse_res(buf, off, len, true) == Ok::<Option<SpecArchive>, CbeError>(Some(a))
}

proof fn lemma_packs(buf: Seq<u8>, base: int, size: int, ents: Seq<(Seq<u8>, int)>, k: nat)
    ensures
        forall|j: int| 0 <= j < spec_packs(buf, base, size, ents, k).len() ==> parsed_somewhere(buf, #[trigger] spec_packs(buf, base, size, ents, k)[j].1),
    decreases k,
{
    if !(k == 0 || k > ents.len()) {
        lemma_packs(buf, base, size, ents, (k - 1) as nat);
        let i = k - 1;
        let off = ents[i].1;
        let next = if i + 1 < ents.len() { ents[i + 1].1 } else { size };
        let prev = spec_packs(buf, base, size, ents, (k - 1) as nat);
        let cur = spec_packs(buf, base, size, ents, k);
        if let Ok(Some(a)) = spec_parse_res(buf, base + off, next - off, true) {
            assert forall|j: int| 0 <= j < cur.len() implies parsed_somewhere(buf, #[trigger] cur[j].1) by {
                if j < prev.len() {
                    assert(cur[j] == prev[j]);
                } else {
                    assert(cur[j].1 == a);
                    assert(spec_parse_res(buf, base + off, next - off, true) == Ok::<Option<SpecArchive>, CbeError>(Some(a)));
                }
            }
        }
    }
}

/// Every archive of a parsed multi-package is what the archive parser finds in the
/// buffer (a directory entry's sub-archive, or the root archive).
pub proof fn multi_archives_parse(buf: Seq<u8>, base: int, size: int)
    ensures
        spec_parse_multi(buf, base, size) matches Some(v) ==> forall|k: int| 0 <= k < v.len() ==> parsed_somewhere(buf, #[trigger] v[k].1),
{
    if let Some(v) = spec_parse_multi(buf, base, size) {
        let count = spec_le32(buf, base + 8)->Some_0;
        let st = multi_scan(buf, base, size, count as nat)->Some_0;
        let packs = spec_packs(buf, base, size, st.ents, st.ents.len());
        lemma_packs(buf, base, size, st.ents, st.ents.len());
        let root_off = st.o - base;
        if st.ents.len() < count && root_off < st.ents[0].1 {
            if let Ok(Some(a)) = spec_parse_res(buf, st.o, st.ents[0].1 - root_off, true) {
                assert forall|k: int| 0 <= k < v.len() implies parsed_somewhere(buf, #[trigger] v[k].1) by {
                    if k < packs.len() {
                        assert(v[k] == packs[k]);
                    } else {
                        assert(v[k].1 == a);
                        assert(spec_parse_res(buf, st.o, st.ents[0].1 - root_off, true) == Ok::<Option<SpecArchive>, CbeError>(Some(a)));
                    }
                }
            }
        }
    }
}

/// A multi-package under 16 bytes, without a readable count, or with a count of 0
/// or of 512 and more is none; one that parses holds at least one archive.
pub proof fn multi_law(buf: Seq<u8>, base: int, size: int)
    ensures
        size < 16 ==> spec_parse_multi(buf, base, size) is None,
        (size >= 16 && spec_le32(buf, base + 8) is None) ==> spec_parse_multi(buf, base, size) is None,
        (size >= 16 && spec_le32(buf, base + 8) is Some && (spec_le32(buf, base + 8)->Some_0 == 0 || spec_le32(buf, base + 8)->Some_0 >= 512)) ==> spec_parse_multi(buf, base, size) is None,
        spec_parse_multi(buf, base, size) matches Some(v) ==> v.len() > 0,
{
}

} // verus!

verus! {

/// `d` is made of `n` little-endian `push {..., lr}` words (bytes x, 0x40..0x4F,
/// 0x2D, 0xE9).
pub open spec fn le_push_code(d: Seq<u8>, n: int) -> bool {
    &&& n >= 1 && d.len() == 4 * n
    &&& forall|k: int| 0 <= k < n ==> 0x40 <= #[trigger] d[4 * k + 1] <= 0x4F && d[4 * k + 2] == 0x2D && d[4 * k + 3] == 0xE9
}

/// `d` is made of `n` big-endian `push {..., lr}` words (bytes 0xE9, 0x2D,
/// 0x40..0x4F, x).
pub open spec fn be_push_code(d: Seq<u8>, n: int) -> bool {
    &&& n >= 1 && d.len() == 4 * n
    &&& forall|k: int| 0 <= k < n ==> #[trigger] d[4 * k] == 0xE9 && d[4 * k + 1] == 0x2D && 0x40 <= d[4 * k + 2] <= 0x4F
}

proof fn lemma_push_count_bound(d: Seq<u8>, be: bool, i: int)
    requires
        0 <= i,
    ensures
        spec_count_push(d, be, i) * 4 <= (if d.len() >= i { d.len() - i } else { 0 }),
    decreases d.len() - i,
{
    if !(i + 4 > d.len()) {
        if push_at(d, i, be) {
            lemma_push_count_bound(d, be, i + 4);
        } else {
            lemma_push_count_bound(d, be, i + 1);
        }
    }
}

/// A count of matches that can only start at or before `m` is at most one per four
/// bytes from `i` to `m`.
proof fn lemma_push_count_upto(d: Seq<u8>, be: bool, i: int, m: int)
    requires
        0 <= i,
        forall|j: int| i <= j && j + 4 <= d.len() && #[trigger] push_at(d, j, be) ==> j <= m,
    ensures
        spec_count_push(d, be, i) <= (if m >= i { (m - i) / 4 + 1 } else { 0 }),
    decreases d.len() - i,
{
    if !(i + 4 > d.len()) {
        if push_at(d, i, be) {
            lemma_push_count_upto(d, be, i + 4, m);
        } else {
            lemma_push_count_upto(d, be, i + 1, m);
        }
    }
}

proof fn lemma_fixed_none(d: Seq<u8>, pat: Seq<u8>, i: int)
    requires
        0 <= i,
        pat.len() == 4,
        forall|j: int| i <= j && j + 4 <= d.len() ==> #[trigger] d.subrange(j, j + 4) != pat,
    ensures
        spec_count_fixed(d, pat, i) == 0,
    decreases d.len() - i,
{
    if !(i + 4 > d.len()) {
        lemma_fixed_none(d, pat, i + 1);
    }
}

proof fn lemma_le_words_count(d: Seq<u8>, n: int, k: int)
    requires
        le_push_code(d, n),
        0 <= k <= n,
    ensures
        spec_count_push(d, false, 4 * k) == n - k,
    decreases n - k,
{
    if k < n {
        assert(push_at(d, 4 * k, false));
        lemma_le_words_count(d, n, k + 1);
        assert(4 * k + 4 == 4 * (k + 1));
    }
}

proof fn lemma_be_words_count(d: Seq<u8>, n: int, k: int)
    requires
        be_push_code(d, n),
        0 <= k <= n,
    ensures
        spec_count_push(d, true, 4 * k) == n - k,
    decreases n - k,
{
    if k < n {
        assert(d[4 * k] == 0xE9);
        assert(push_at(d, 4 * k, true));
        lemma_be_words_count(d, n, k + 1);
        assert(4 * k + 4 == 4 * (k + 1));
    }
}

/// Code made only of little-endian `push` instructions is read as little-endian,
/// and code made only of big-endian ones, whose register byte is not 0x2D, as
/// big-endian.
pub proof fn push_code_byte_order(d: Seq<u8>, n: int)
    ensures
        le_push_code(d, n) ==> spec_detect_endian(d) == Endian::Le,
        (be_push_code(d, n) && forall|k: int| 0 <= k < n ==> #[trigger] d[4 * k + 3] != 0x2D) ==> spec_detect_endian(d) == Endian::Be,
{
    if le_push_code(d, n) {
        lemma_le_words_count(d, n, 0);
        lemma_push_count_bound(d, true, 0);
        assert forall|j: int| 0 <= j && j + 4 <= d.len() implies #[trigger] d.subrange(j, j + 4) != bxlr_be() by {
            let k = j / 4;
            let r = j % 4;
            assert(j == 4 * k + r && 0 <= r < 4);
            assert(0 <= k < n);
            let _ = d[4 * k + 1];
            if r == 0 {
                assert(d.subrange(j, j + 4)[1] == d[4 * k + 1]);
            } else if r == 1 {
                assert(d.subrange(j, j + 4)[0] == d[4 * k + 1]);
            } else if r == 2 {
                assert(d.subrange(j, j + 4)[0] == d[4 * k + 2]);
            } else {
                assert(d.subrange(j, j + 4)[0] == d[4 * k + 3]);
            }
        }
        lemma_fixed_none(d, bxlr_be(), 0);
    }
    if be_push_code(d, n) && forall|k: int| 0 <= k < n ==> #[trigger] d[4 * k + 3] != 0x2D {
        lemma_be_words_count(d, n, 0);
        assert forall|j: int| 0 <= j && j + 4 <= d.len() && #[trigger] push_at(d, j, false) implies j <= -1 by {
            let k = j / 4;
            let r = j % 4;
            assert(j == 4 * k + r && 0 <= r < 4);
            assert(0 <= k < n);
            let _ = d[4 * k];
            if r == 0 {
                assert(d[j + 1] == 0x2D);
            } else if r == 1 {
                assert(d[j + 2] == d[4 * k + 3]);
            } else if r == 2 {
                assert(d[j + 1] == d[4 * k + 3]);
                assert(d[j + 2] == d[4 * (k + 1)]);
            } else {
                assert(d[j + 1] == d[4 * (k + 1)]);
            }
        }
        lemma_push_count_upto(d, false, 0, -1);
        assert forall|j: int| 0 <= j && j + 4 <= d.len() implies #[trigger] d.subrange(j, j + 4) != bxlr_le() by {
            let k = j / 4;
            let r = j % 4;
            assert(j == 4 * k + r && 0 <= r < 4);
            assert(0 <= k < n);
            let _ = d[4 * k];
            if r == 0 {
                assert(d.subrange(j, j + 4)[0] == d[4 * k]);
            } else if r == 1 {
                assert(d.subrange(j, j + 4)[0] == d[4 * k + 1]);
            } else if r == 2 {
                assert(d.subrange(j, j + 4)[0] == d[4 * k + 2]);
            } else {
                assert(d.subrange(j, j + 4)[1] == d[4 * (k + 1)]);
            }
        }
        lemma_fixed_none(d, bxlr_le(), 0);
    }
}

} // verus!
