use vstd::prelude::*;

verus! {

/// Why an image payload could not be decoded.
#[derive(Debug, Clone, Copy, PartialEq, Eq, Structural)]
pub enum ImgError {
    /// The GIF-variant payload is shorter than its 8-byte header.
    PayloadTooShort,
    /// Byte 6 of a GIF-variant payload with a global palette is not zero.
    BadPaletteFlag(u8),
    /// The GIF-variant payload holds no image descriptor.
    NoImageDescriptor,
    /// The LZW minimum code size is over 30: a code table of 2^31 roots or more
    /// does not fit the 32-bit code arithmetic.
    CodeSize(u8),
    /// The bytes do not start with the PNG signature.
    NotPng,
    /// The IHDR chunk is shorter than 13 bytes.
    IhdrTooShort,
    /// Interlaced PNGs are not supported.
    Interlaced,
    /// The PNG has no IHDR chunk.
    NoIhdr,
    /// The IDAT stream does not inflate.
    Inflate,
    /// Unknown PNG colour type.
    ColorType(u8),
    /// Unsupported PNG bit depth for this colour type.
    Depth { depth: u8, ctype: u8 },
    /// Unknown PNG row filter.
    Filter(u8),
    /// The image is too large to hold in memory.
    TooLarge,
}

/// A decoded image in RGB565, with its transparency information.
#[derive(Debug, Clone)]
pub struct Image {
    pub width: usize,
    pub height: usize,
    pub rgb565: Vec<u16>,
    /// The palette index that is transparent (GIF variant).
    pub transparent: Option<u8>,
    /// 1 for each transparent pixel (PNG), present only when some pixel is transparent.
    pub alpha: Option<Vec<u8>>,
    /// The palette index of each pixel (GIF variant).
    pub index: Option<Vec<u8>>,
}

/// The mathematical value of an image.
pub struct SpecImage {
    pub width: int,
    pub height: int,
    pub rgb565: Seq<u16>,
    pub transparent: Option<u8>,
    pub alpha: Option<Seq<u8>>,
    pub index: Option<Seq<u8>>,
}

/// The value of an optional byte vector.
pub open spec fn opt_bytes(v: Option<Vec<u8>>) -> Option<Seq<u8>> {
    match v {
        Some(x) => Some(x@),
        None => None,
    }
}

impl View for Image {
    type V = SpecImage;

    open spec fn view(&self) -> SpecImage {
        SpecImage {
            width: self.width as int,
            height: self.height as int,
            rgb565: self.rgb565@,
            transparent: self.transparent,
            alpha: opt_bytes(self.alpha),
            index: opt_bytes(self.index),
        }
    }
}

/// The value of a decoding result.
pub open spec fn img_result(r: Result<Image, ImgError>) -> Result<SpecImage, ImgError> {
    match r {
        Ok(i) => Ok(i@),
        Err(e) => Err(e),
    }
}

// ---------------------------------------------------------------------------
// Small readers

/// Big-endian u16 at `at`, 0 when it lies outside the buffer.
pub open spec fn spec_u16be(b: Seq<u8>, at: int) -> u16 {
    if 0 <= at && at + 2 <= b.len() { (b[at] as int * 256 + b[at + 1] as int) as u16 } else { 0 }
}

/// Little-endian u16 at `at`, 0 when it lies outside the buffer.
pub open spec fn spec_u16le(b: Seq<u8>, at: int) -> u16 {
    if 0 <= at && at + 2 <= b.len() { (b[at + 1] as int * 256 + b[at] as int) as u16 } else { 0 }
}

fn u16be(b: &[u8], at: usize) -> (r: u16)
    ensures
        r == spec_u16be(b@, at as int),
{
    if at <= b.len() && 2 <= b.len() - at {
        (b[at] as u16) * 256 + b[at + 1] as u16
    } else {
        0
    }
}

fn u16le(b: &[u8], at: usize) -> (r: u16)
    ensures
        r == spec_u16le(b@, at as int),
{
    if at <= b.len() && 2 <= b.len() - at {
        (b[at + 1] as u16) * 256 + b[at] as u16
    } else {
        0
    }
}

// ---------------------------------------------------------------------------
// GIF data sub-blocks

/// The concatenated data sub-blocks starting at `o`, and where the chain ends
/// (just past the zero terminator, or past the end of the buffer).
pub open spec fn spec_blocks(buf: Seq<u8>, o: int) -> (Seq<u8>, int)
    decreases buf.len() - o,
{
    if o < 0 || o >= buf.len() {
        (Seq::empty(), o)
    } else {
        let n = buf[o] as int;
        let o1 = o + 1;
        if n == 0 {
            (Seq::empty(), o1)
        } else if o1 + n >= buf.len() {
            (buf.subrange(o1, buf.len() as int), o1 + n)
        } else {
            let rest = spec_blocks(buf, o1 + n);
            (buf.subrange(o1, o1 + n) + rest.0, rest.1)
        }
    }
}

proof fn lemma_blocks_end(buf: Seq<u8>, o: int)
    requires
        0 <= o,
    ensures
        spec_blocks(buf, o).1 >= o,
        o < buf.len() ==> spec_blocks(buf, o).1 > o,
        spec_blocks(buf, o).1 <= buf.len() + 256 || spec_blocks(buf, o).1 == o,
    decreases buf.len() - o,
{
    if 0 <= o < buf.len() {
        let n = buf[o] as int;
        if n != 0 && o + 1 + n < buf.len() {
            lemma_blocks_end(buf, o + 1 + n);
        }
    }
}

fn blocks(buf: &[u8], o: u128) -> (r: (Vec<u8>, u128))
    requires
        o <= buf@.len() + 256,
    ensures
        r.0@ == spec_blocks(buf@, o as int).0,
        r.1 == spec_blocks(buf@, o as int).1,
        r.1 >= o,
        r.1 <= buf@.len() + 256,
{
    let ghost o0 = o;
    let mut out: Vec<u8> = Vec::new();
    let mut o = o;
    let n = buf.len();
    loop
        invariant_except_break
            n == buf@.len(),
            o0 <= o <= n + 256,
            spec_blocks(buf@, o0 as int) == (out@ + spec_blocks(buf@, o as int).0, spec_blocks(buf@, o as int).1),
        ensures
            out@ == spec_blocks(buf@, o0 as int).0,
            o == spec_blocks(buf@, o0 as int).1,
            o0 <= o <= n + 256,
        decreases n + 256 - o,
    {
        if o >= n as u128 {
            proof { assert(out@ + Seq::<u8>::empty() =~= out@); }
            break;
        }
        let at = o as usize;
        let k = buf[at] as usize;
        let start = at + 1;
        if k == 0 {
            proof { assert(out@ + Seq::<u8>::empty() =~= out@); }
            o = o + 1;
            break;
        }
        let end = if k < n - start { start + k } else { n };
        let ghost before = out@;
        let mut j = start;
        while j < end
            invariant
                start <= j <= end <= n,
                n == buf@.len(),
                out@ == before + buf@.subrange(start as int, j as int),
            decreases end - j,
        {
            out.push(buf[j]);
            proof { assert(buf@.subrange(start as int, j + 1) =~= buf@.subrange(start as int, j as int).push(buf@[j as int])); }
            j = j + 1;
        }
        o = o + 1 + k as u128;
        proof {
            if k >= n - start {
                assert(out@ + Seq::<u8>::empty() =~= out@);
            } else {
                assert(before + (buf@.subrange(start as int, (start + k) as int) + spec_blocks(buf@, o as int).0)
                    =~= out@ + spec_blocks(buf@, o as int).0);
            }
        }
        if k >= n - start {
            break;
        }
    }
    (out, o)
}

// ---------------------------------------------------------------------------
// LZW

/// The code table after a clear code: one single-byte string per root code, then the
/// (empty) clear and end codes.
pub open spec fn fresh_dic(clear: nat) -> Seq<Seq<u8>> {
    Seq::new(clear, |i: int| seq![i as u8]) + seq![Seq::<u8>::empty(), Seq::<u8>::empty()]
}

/// The code of `cs` bits starting at bit `bitpos` of the LSB-first bit stream.
pub open spec fn lzw_code(data: Seq<u8>, bitpos: int, cs: nat) -> int {
    let byte = bitpos / 8;
    let b0: u32 = if byte < data.len() { data[byte] as u32 } else { 0 };
    let b1: u32 = if byte + 1 < data.len() { data[byte + 1] as u32 } else { 0 };
    let b2: u32 = if data.len() - byte > 2 { data[byte + 2] as u32 } else { 0 };
    let chunk: u32 = b0 | (b1 << 8u32) | (b2 << 16u32);
    ((chunk >> ((bitpos % 8) as u32)) & (((1u32 << (cs as u32)) - 1) as u32)) as int
}

/// The state of the LZW decoder.
pub struct LzwState {
    pub dic: Seq<Seq<u8>>,
    pub cs: nat,
    pub prev: Option<Seq<u8>>,
    pub bitpos: int,
    pub out: Seq<u8>,
}

/// The output of the LZW decoder from state `st` on: a clear code resets the table,
/// the end code (or a code that cannot be resolved) stops, and each other code emits its
/// string and, after the first code, adds the previous string plus the first byte of this
/// one to the table (widening the codes up to 12 bits as the table fills).
pub open spec fn lzw_run(data: Seq<u8>, mcs: nat, st: LzwState) -> Seq<u8>
    decreases data.len() * 8 - st.bitpos,
{
    let clear = pow2u(mcs);
    if st.bitpos < 0 || st.cs == 0 || st.bitpos + st.cs > data.len() * 8 {
        st.out
    } else {
        let code = lzw_code(data, st.bitpos, st.cs);
        let bp = st.bitpos + st.cs;
        if code == clear {
            lzw_run(data, mcs, LzwState { dic: fresh_dic(clear), cs: mcs + 1, prev: None, bitpos: bp, out: st.out })
        } else if code == clear + 1 {
            st.out
        } else {
            let entry: Option<Seq<u8>> = if code < st.dic.len() {
                Some(st.dic[code])
            } else {
                match st.prev {
                    Some(p) => Some(p.push(p[0])),
                    None => None,
                }
            };
            match entry {
                None => st.out,
                Some(e) => {
                    let (dic2, cs2) = match st.prev {
                        Some(p) => {
                            let d2 = st.dic.push(p.push(e[0]));
                            (d2, if d2.len() == pow2u(st.cs) && st.cs < 12 { st.cs + 1 } else { st.cs })
                        },
                        None => (st.dic, st.cs),
                    };
                    lzw_run(data, mcs, LzwState { dic: dic2, cs: cs2, prev: Some(e), bitpos: bp, out: st.out + e })
                },
            }
        }
    }
}

/// 2 to the power `n`.
pub open spec fn pow2u(n: nat) -> nat
    decreases n,
{
    if n == 0 { 1 } else { 2 * pow2u((n - 1) as nat) }
}

/// What `lzw` returns.
pub open spec fn spec_lzw(data: Seq<u8>, mcs: nat) -> Seq<u8> {
    lzw_run(data, mcs, LzwState { dic: fresh_dic(pow2u(mcs)), cs: mcs + 1, prev: None, bitpos: 0, out: Seq::empty() })
}

/// Table entries other than the clear and end codes are never empty.
pub open spec fn dic_ok(dic: Seq<Seq<u8>>, clear: nat) -> bool {
    dic.len() >= clear + 2 && forall|i: int| 0 <= i < dic.len() && i != clear && i != clear + 1 ==> #[trigger] dic[i].len() > 0
}

proof fn lemma_pow2u_small(n: nat)
    requires
        n <= 31,
    ensures
        pow2u(n) == (1u32 << (n as u32)),
        n <= 30 ==> pow2u(n) <= 0x4000_0000,
    decreases n,
{
    let m = n as u32;
    if n == 0 {
        assert(1u32 << 0u32 == 1) by (bit_vector);
    } else {
        lemma_pow2u_small((n - 1) as nat);
        assert((1u32 << m) == 2 * (1u32 << ((m - 1) as u32))) by (bit_vector)
            requires
                1 <= m <= 31,
        ;
    }
    assert(m <= 30 ==> (1u32 << m) <= 0x4000_0000) by (bit_vector)
        requires
            m <= 31,
    ;
}

fn copy_bytes(v: &Vec<u8>) -> (r: Vec<u8>)
    ensures
        r@ == v@,
{
    vstd::slice::slice_to_vec(v.as_slice())
}

fn fresh(clear: usize) -> (d: Vec<Vec<u8>>)
    requires
        clear <= 0x4000_0000,
    ensures
        d@.len() == clear + 2,
        forall|i: int| 0 <= i < d@.len() ==> #[trigger] d@[i]@ == fresh_dic(clear as nat)[i],
{
    let mut d: Vec<Vec<u8>> = Vec::new();
    let mut i: usize = 0;
    while i < clear
        invariant
            i <= clear <= 0x4000_0000,
            d@.len() == i,
            forall|t: int| 0 <= t < i ==> #[trigger] d@[t]@ == seq![t as u8],
        decreases clear - i,
    {
        let mut v: Vec<u8> = Vec::new();
        v.push(i as u8);
        d.push(v);
        i = i + 1;
    }
    d.push(Vec::new());
    d.push(Vec::new());
    proof {
        assert forall|t: int| 0 <= t < d@.len() implies #[trigger] d@[t]@ == fresh_dic(clear as nat)[t] by {
            if t < clear {
                assert(fresh_dic(clear as nat)[t] == seq![t as u8]);
            }
        }
    }
    d
}

fn code_at(data: &[u8], bitpos: u128, cs: usize) -> (c: usize)
    requires
        cs <= 31,
        bitpos / 8 < data@.len(),
    ensures
        c == lzw_code(data@, bitpos as int, cs as nat),
{
    let byte = (bitpos / 8) as usize;
    let b0: u32 = data[byte] as u32;
    let b1: u32 = if byte + 1 < data.len() { data[byte + 1] as u32 } else { 0 };
    let b2: u32 = if data.len() - byte > 2 { data[byte + 2] as u32 } else { 0 };
    let chunk: u32 = b0 | (b1 << 8u32) | (b2 << 16u32);
    let sh: u32 = (bitpos % 8) as u32;
    let csu: u32 = cs as u32;
    assert((1u32 << csu) >= 1) by (bit_vector)
        requires
            csu <= 31,
    ;
    let mask: u32 = (1u32 << csu) - 1;
    let c = (chunk >> sh) & mask;
    assert(c <= mask) by (bit_vector)
        requires
            c == (chunk >> sh) & mask,
    ;
    c as usize
}

/// Decode a GIF LZW code stream with the given minimum code size (the codes are
/// read 24 bits at a time, so sizes past 24 bits read zeros in their high bits).
pub fn lzw(data: &[u8], min_code_size: u8) -> (out: Vec<u8>)
    requires
        min_code_size <= 30,
    ensures
        out@ == spec_lzw(data@, min_code_size as nat),
{
    let mcs = min_code_size as usize;
    proof { lemma_pow2u_small(mcs as nat); }
    let clear: usize = (1u32 << (mcs as u32)) as usize;
    let end = clear + 1;
    let mut code_size: usize = mcs + 1;
    let mut dic = fresh(clear);
    let mut out: Vec<u8> = Vec::new();
    let mut prev: Option<Vec<u8>> = None;
    let mut bitpos: u128 = 0;
    let dl = data.len();
    let nbits: u128 = dl as u128 * 8;
    proof {
        assert(dic@.map_values(|v: Vec<u8>| v@) =~= fresh_dic(clear as nat));
    }
    loop
        invariant_except_break
            dl == data@.len(),
            clear == pow2u(mcs as nat),
            clear <= 0x4000_0000,
            end == clear + 1,
            mcs <= 30,
            mcs + 1 <= code_size <= 31,
            nbits == data@.len() * 8,
            bitpos <= nbits,
            dic_ok(dic@.map_values(|v: Vec<u8>| v@), clear as nat),
            prev matches Some(p) ==> p@.len() > 0,
            lzw_run(data@, mcs as nat, LzwState {
                dic: dic@.map_values(|v: Vec<u8>| v@),
                cs: code_size as nat,
                prev: opt_bytes(prev),
                bitpos: bitpos as int,
                out: out@,
            }) == spec_lzw(data@, mcs as nat),
        ensures
            out@ == spec_lzw(data@, mcs as nat),
        decreases nbits - bitpos,
    {
        let ghost st = LzwState {
            dic: dic@.map_values(|v: Vec<u8>| v@),
            cs: code_size as nat,
            prev: opt_bytes(prev),
            bitpos: bitpos as int,
            out: out@,
        };
        if bitpos + code_size as u128 > nbits {
            break;
        }
        let code = code_at(data, bitpos, code_size);
        bitpos = bitpos + code_size as u128;
        if code == clear {
            dic = fresh(clear);
            code_size = mcs + 1;
            prev = None;
            proof {
                assert(dic@.map_values(|v: Vec<u8>| v@) =~= fresh_dic(clear as nat));
            }
            continue;
        }
        if code == end {
            break;
        }
        let entry: Vec<u8> = if code < dic.len() {
            copy_bytes(&dic[code])
        } else {
            match &prev {
                Some(p) => {
                    let mut e = copy_bytes(p);
                    e.push(p[0]);
                    e
                },
                None => {
                    break;
                },
            }
        };
        proof {
            if code < dic@.len() {
                assert(st.dic[code as int] == dic@[code as int]@);
            }
        }
        let mut k: usize = 0;
        let ghost out0 = out@;
        while k < entry.len()
            invariant
                k <= entry@.len(),
                out@ == out0 + entry@.subrange(0, k as int),
            decreases entry@.len() - k,
        {
            out.push(entry[k]);
            proof { assert(entry@.subrange(0, k + 1) =~= entry@.subrange(0, k as int).push(entry@[k as int])); }
            k = k + 1;
        }
        proof { assert(entry@.subrange(0, entry@.len() as int) =~= entry@); }
        match &prev {
            Some(p) => {
                let mut n = copy_bytes(p);
                n.push(entry[0]);
                let ghost d0 = dic@;
                dic.push(n);
                proof {
                    assert(dic@.map_values(|v: Vec<u8>| v@) =~= d0.map_values(|v: Vec<u8>| v@).push(p@.push(entry@[0])));
                    lemma_pow2u_small(code_size as nat);
                }
                if dic.len() == (1u32 << (code_size as u32)) as usize && code_size < 12 {
                    code_size = code_size + 1;
                }
            },
            None => {},
        }
        prev = Some(entry);
    }
    out
}

} // verus!

verus! {

// ---------------------------------------------------------------------------
// GIF interlacing

/// The rows `a, a + step, a + 2 step, ...` below `h`.
pub open spec fn prog(a: int, step: int, h: int) -> Seq<int>
    decreases h - a,
{
    if a >= h || step <= 0 { Seq::empty() } else if a + step >= h { seq![a] } else { seq![a] + prog(a + step, step, h) }
}

/// The order in which an interlaced GIF stores its rows: every 8th row from 0, every 8th
/// from 4, every 4th from 2, then every 2nd from 1.
pub open spec fn interlace_rows(h: int) -> Seq<int> {
    prog(0, 8, h) + prog(4, 8, h) + prog(2, 4, h) + prog(1, 2, h)
}

/// The image after placing the first `k` stored rows: stored row `s` goes to row
/// `interlace_rows(h)[s]` when the source holds it in full.
pub open spec fn deint_fold(idx: Seq<u8>, w: int, h: int, k: int) -> Seq<u8>
    decreases k,
{
    if k <= 0 {
        zeros(w * h)
    } else {
        let prev = deint_fold(idx, w, h, k - 1);
        let s = k - 1;
        let dst = interlace_rows(h)[s];
        if (s + 1) * w > idx.len() || dst >= h {
            prev
        } else {
            Seq::new(prev.len(), |p: int| if dst * w <= p < dst * w + w { idx[s * w + (p - dst * w)] } else { prev[p] })
        }
    }
}

/// What `deinterlace` returns.
pub open spec fn spec_deinterlace(idx: Seq<u8>, w: int, h: int) -> Seq<u8> {
    deint_fold(idx, w, h, interlace_rows(h).len() as int)
}

fn push_prog(rows: &mut Vec<usize>, a: usize, step: usize, h: usize)
    requires
        step > 0,
        step <= 8,
        h <= 0x10000,
        a <= 8,
    ensures
        final(rows)@.map_values(|x: usize| x as int) == old(rows)@.map_values(|x: usize| x as int) + prog(a as int, step as int, h as int),
        forall|t: int| 0 <= t < final(rows)@.len() ==> (t < old(rows)@.len() ==> final(rows)@[t] == old(rows)@[t]),
{
    let ghost r0 = rows@.map_values(|x: usize| x as int);
    let mut r = a;
    while r < h
        invariant
            step > 0,
            step <= 8,
            h <= 0x10000,
            r <= h + 8,
            rows@.len() >= old(rows)@.len(),
            forall|t: int| 0 <= t < old(rows)@.len() ==> rows@[t] == old(rows)@[t],
            rows@.map_values(|x: usize| x as int) + prog(r as int, step as int, h as int) == r0 + prog(a as int, step as int, h as int),
        decreases h + 8 - r,
    {
        let ghost before = rows@.map_values(|x: usize| x as int);
        rows.push(r);
        proof {
            assert(rows@.map_values(|x: usize| x as int) =~= before.push(r as int));
            assert(prog(r as int, step as int, h as int) == seq![r as int] + prog(r + step, step as int, h as int));
            assert(before.push(r as int) + prog(r + step, step as int, h as int) =~= before + (seq![r as int] + prog(r + step, step as int, h as int)));
        }
        r = r + step;
    }
    proof {
        assert(prog(r as int, step as int, h as int) =~= Seq::<int>::empty());
        assert(rows@.map_values(|x: usize| x as int) + Seq::<int>::empty() =~= rows@.map_values(|x: usize| x as int));
    }
}

/// Put the rows of an interlaced GIF back in display order.
pub fn deinterlace(idx: &[u8], w: usize, h: usize) -> (out: Vec<u8>)
    requires
        w <= 0xFFFF,
        h <= 0xFFFF,
    ensures
        out@ == spec_deinterlace(idx@, w as int, h as int),
{
    assert(w * h <= 0xFFFF * 0xFFFF) by (nonlinear_arith)
        requires
            w <= 0xFFFF,
            h <= 0xFFFF,
    ;
    let n = w * h;
    let mut out: Vec<u8> = vec![0u8; n];
    let mut rows: Vec<usize> = Vec::new();
    push_prog(&mut rows, 0, 8, h);
    push_prog(&mut rows, 4, 8, h);
    push_prog(&mut rows, 2, 4, h);
    push_prog(&mut rows, 1, 2, h);
    let ghost rs = interlace_rows(h as int);
    proof {
        assert(rows@.map_values(|x: usize| x as int) =~= rs);
        assert(out@ =~= deint_fold(idx@, w as int, h as int, 0));
    }
    let mut s: usize = 0;
    while s < rows.len()
        invariant
            rows@.map_values(|x: usize| x as int) == rs,
            rs == interlace_rows(h as int),
            s <= rows@.len(),
            w <= 0xFFFF,
            h <= 0xFFFF,
            n == w * h,
            out@ == deint_fold(idx@, w as int, h as int, s as int),
            out@.len() == n,
        decreases rows@.len() - s,
    {
        let dst = rows[s];
        proof { assert(rs[s as int] == dst as int); }
        let s1: u128 = s as u128 + 1;
        let w1: u128 = w as u128;
        assert(s1 * w1 <= 0x1_0000_0000_0000_0000 * 0xFFFF) by (nonlinear_arith)
            requires
                s1 <= 0x1_0000_0000_0000_0000,
                w1 <= 0xFFFF,
        ;
        let ok = s1 * w1 <= idx.len() as u128 && dst < h;
        if ok {
            let ghost prev = out@;
            assert(dst * w + w <= w * h) by (nonlinear_arith)
                requires
                    dst < h,
            ;
            assert((s as int + 1) * w == s * w + w) by (nonlinear_arith);
            let sa = s * w;
            let da = dst * w;
            let mut x: usize = 0;
            while x < w
                invariant
                    x <= w,
                    da == dst * w,
                    sa == s * w,
                    da + w <= n,
                    sa + w <= idx@.len(),
                    idx@.len() <= usize::MAX,
                    out@.len() == n,
                    prev.len() == n,
                    forall|p: int| 0 <= p < n ==> #[trigger] out@[p] == (if da <= p < da + x { idx@[sa + (p - da)] } else { prev[p] }),
                decreases w - x,
            {
                out.set(da + x, idx[sa + x]);
                x = x + 1;
            }
            proof {
                assert(out@ =~= deint_fold(idx@, w as int, h as int, s + 1));
            }
        }
        s = s + 1;
    }
    proof {
        assert(rows@.len() == rs.len());
    }
    out
}

// ---------------------------------------------------------------------------
// The GIF variant used by CBE resources

/// The palette of `n` big-endian RGB565 entries at `at`.
pub open spec fn spec_palette(p: Seq<u8>, at: int, n: nat) -> Seq<u16> {
    Seq::new(n, |i: int| spec_u16be(p, at + 2 * i))
}

/// The image built from decoded palette indices: each of the `w * h` pixels takes its
/// palette colour (0 for an index past the palette, and 0 past the decoded data).
pub open spec fn gif_image(idx: Seq<u8>, w: int, h: int, pal: Seq<u16>, tr: Option<u8>) -> SpecImage {
    let want = w * h;
    SpecImage {
        width: w,
        height: h,
        rgb565: Seq::new(want as nat, |i: int| if i < idx.len() && (idx[i] as int) < pal.len() { pal[idx[i] as int] } else { 0u16 }),
        transparent: tr,
        alpha: None,
        index: Some(Seq::new(want as nat, |i: int| if i < idx.len() { idx[i] } else { 0u8 })),
    }
}

/// The scan for the image descriptor from `o` on, with the current palette and
/// transparent index: graphic-control extensions set the transparent index, other
/// extensions are skipped, and the first image descriptor is decoded.
pub open spec fn gif_scan(p: Seq<u8>, o: int, pal: Seq<u16>, tr: Option<u8>) -> Result<SpecImage, ImgError>
    decreases p.len() - o,
{
    if o < 0 || o >= p.len() {
        Err(ImgError::NoImageDescriptor)
    } else if p[o] == 0x21 {
        if o + 1 >= p.len() {
            Err(ImgError::NoImageDescriptor)
        } else if p[o + 1] == 0xF9 {
            let o2 = o + 2;
            if o2 + 4 >= p.len() {
                Err(ImgError::NoImageDescriptor)
            } else {
                let tr2 = if p[o2 + 1] & 1 != 0 { Some(p[o2 + 4]) } else { tr };
                let next = o2 + p[o2] as int + 2;
                if next >= p.len() { Err(ImgError::NoImageDescriptor) } else { gif_scan(p, next, pal, tr2) }
            }
        } else {
            let o2 = o + 2;
            if o2 >= p.len() {
                Err(ImgError::NoImageDescriptor)
            } else {
                let next = spec_blocks(p, o2 + 1 + p[o2] as int).1;
                if next <= o || next >= p.len() { Err(ImgError::NoImageDescriptor) } else { gif_scan(p, next, pal, tr) }
            }
        }
    } else if p[o] == 0x2C {
        if o + 10 > p.len() {
            Err(ImgError::NoImageDescriptor)
        } else {
            let w = spec_u16le(p, o + 5) as int;
            let h = spec_u16le(p, o + 7) as int;
            let lf = p[o + 9];
            let n = pow2u(((lf & 7) + 1) as nat);
            let pal2 = if lf & 0x80 != 0 { spec_palette(p, o + 10, n) } else { pal };
            let o3 = if lf & 0x80 != 0 { o + 10 + 2 * n } else { o + 10 };
            if o3 >= p.len() {
                Err(ImgError::NoImageDescriptor)
            } else if p[o3] > 30 {
                Err(ImgError::CodeSize(p[o3]))
            } else {
                let idx0 = spec_lzw(spec_blocks(p, o3 + 1).0, p[o3] as nat);
                let idx = if lf & 0x40 != 0 { spec_deinterlace(idx0, w, h) } else { idx0 };
                Ok(gif_image(idx, w, h, pal2, tr))
            }
        }
    } else if p[o] == 0x3B {
        Err(ImgError::NoImageDescriptor)
    } else {
        gif_scan(p, o + 1, pal, tr)
    }
}

/// What `decode_gif_variant` returns.
pub open spec fn spec_decode_gif(p: Seq<u8>) -> Result<SpecImage, ImgError> {
    if p.len() < 8 {
        Err(ImgError::PayloadTooShort)
    } else if p[4] & 0x80 != 0 && p[6] != 0 {
        Err(ImgError::BadPaletteFlag(p[6]))
    } else {
        let n = pow2u(((p[4] & 7) + 1) as nat);
        if p[4] & 0x80 != 0 {
            gif_scan(p, (7 + 2 * n) as int, spec_palette(p, 7, n), None)
        } else {
            gif_scan(p, 7, Seq::empty(), None)
        }
    }
}

/// The colours of a decoded GIF image: the first `k` pixels take their index's
/// colour in `pal` (0 for an index past it); the others have colour and index 0.
pub open spec fn gif_colours(im: SpecImage, ix: Seq<u8>, pal: Seq<u16>, k: int) -> bool {
    &&& 0 <= k <= ix.len()
    &&& forall|i: int| 0 <= i < k ==> #[trigger] im.rgb565[i] == (if (ix[i] as int) < pal.len() { pal[ix[i] as int] } else { 0u16 })
    &&& forall|i: int| k <= i < ix.len() ==> #[trigger] im.rgb565[i] == 0 && ix[i] == 0
}

/// The shape of a decoded GIF image: no alpha mask, one palette index per pixel,
/// `width * height` pixels, each coloured from one palette as far as the data went.
pub open spec fn gif_shape(im: SpecImage) -> bool {
    &&& im.alpha is None
    &&& im.index is Some
    &&& 0 <= im.width && 0 <= im.height
    &&& im.index->0.len() == im.rgb565.len() == im.width * im.height
    &&& exists|pal: Seq<u16>, k: int| gif_colours(im, im.index->0, pal, k)
}

proof fn lemma_gif_image_shape(idx: Seq<u8>, w: int, h: int, pal: Seq<u16>, tr: Option<u8>)
    requires
        0 <= w && 0 <= h,
    ensures
        gif_shape(gif_image(idx, w, h, pal, tr)),
{
    let im = gif_image(idx, w, h, pal, tr);
    assert(w * h >= 0) by (nonlinear_arith)
        requires
            0 <= w && 0 <= h,
    ;
    let ix = im.index->0;
    let k = if idx.len() < w * h { idx.len() as int } else { w * h };
    assert(gif_colours(im, ix, pal, k));
}

proof fn lemma_gif_scan_shape(p: Seq<u8>, o: int, pal: Seq<u16>, tr: Option<u8>)
    ensures
        gif_scan(p, o, pal, tr) matches Ok(im) ==> gif_shape(im),
        gif_scan(p, o, pal, tr) is Ok ==> exists|k: int| o <= k && k + 10 <= p.len() && #[trigger] p[k] == 0x2C,
    decreases p.len() - o,
{
    if 0 <= o < p.len() {
        if p[o] == 0x21 {
            if o + 1 < p.len() {
                if p[o + 1] == 0xF9 {
                    let o2 = o + 2;
                    if o2 + 4 < p.len() {
                        let tr2 = if p[o2 + 1] & 1 != 0 { Some(p[o2 + 4]) } else { tr };
                        let next = o2 + p[o2] as int + 2;
                        if next < p.len() {
                            lemma_gif_scan_shape(p, next, pal, tr2);
                        }
                    }
                } else {
                    let o2 = o + 2;
                    if o2 < p.len() {
                        let next = spec_blocks(p, o2 + 1 + p[o2] as int).1;
                        if next > o && next < p.len() {
                            lemma_gif_scan_shape(p, next, pal, tr);
                        }
                    }
                }
            }
        } else if p[o] == 0x2C {
            if o + 10 <= p.len() {
                let w = spec_u16le(p, o + 5) as int;
                let h = spec_u16le(p, o + 7) as int;
                let lf = p[o + 9];
                let n = pow2u(((lf & 7) + 1) as nat);
                let pal2 = if lf & 0x80 != 0 { spec_palette(p, o + 10, n) } else { pal };
                let o3 = if lf & 0x80 != 0 { o + 10 + 2 * n } else { o + 10 };
                if o3 < p.len() && p[o3] <= 30 {
                    let idx0 = spec_lzw(spec_blocks(p, o3 + 1).0, p[o3] as nat);
                    let idx = if lf & 0x40 != 0 { spec_deinterlace(idx0, w, h) } else { idx0 };
                    lemma_gif_image_shape(idx, w, h, pal2, tr);
                }
            }
        } else if p[o] != 0x3B {
            lemma_gif_scan_shape(p, o + 1, pal, tr);
        }
    }
}

/// What decoding a GIF-variant payload gives: an error for a payload shorter than
/// its 8-byte header or with a global palette and a nonzero byte 6; an image has no
/// alpha mask, one palette index per pixel and `width * height` pixels, each of the
/// decoded ones coloured from one palette, the rest colour and index 0; and an image
/// comes only from a complete image descriptor (0x2C and its 9 bytes).
pub proof fn gif_decode_law(p: Seq<u8>)
    ensures
        p.len() < 8 ==> spec_decode_gif(p) is Err,
        (p.len() >= 8 && p[4] & 0x80 != 0 && p[6] != 0) ==> spec_decode_gif(p) is Err,
        spec_decode_gif(p) matches Ok(im) ==> gif_shape(im),
        spec_decode_gif(p) is Ok ==> exists|k: int| 7 <= k && k + 10 <= p.len() && #[trigger] p[k] == 0x2C,
{
    if p.len() >= 8 && !(p[4] & 0x80 != 0 && p[6] != 0) {
        let n = pow2u(((p[4] & 7) + 1) as nat);
        if p[4] & 0x80 != 0 {
            lemma_gif_scan_shape(p, (7 + 2 * n) as int, spec_palette(p, 7, n), None);
        } else {
            lemma_gif_scan_shape(p, 7, Seq::empty(), None);
        }
    }
}

fn read_palette(p: &[u8], at: usize, n: usize) -> (r: Vec<u16>)
    requires
        n <= 256,
        at <= p@.len() + 600,
    ensures
        r@ == spec_palette(p@, at as int, n as nat),
{
    let mut r: Vec<u16> = Vec::new();
    let mut i: usize = 0;
    let pl = p.len();
    while i < n
        invariant
            i <= n <= 256,
            pl == p@.len(),
            at <= pl + 600,
            r@ =~= Seq::new(i as nat, |k: int| spec_u16be(p@, at + 2 * k)),
        decreases n - i,
    {
        if at <= pl && 2 * i <= pl - at {
            r.push(u16be(p, at + 2 * i));
        } else {
            r.push(0);
        }
        i = i + 1;
    }
    r
}

fn make_gif_image(idx: Vec<u8>, w: usize, h: usize, pal: &Vec<u16>, tr: Option<u8>) -> (im: Image)
    requires
        w <= 0xFFFF,
        h <= 0xFFFF,
    ensures
        im@ == gif_image(idx@, w as int, h as int, pal@, tr),
{
    assert(w * h <= 0xFFFF * 0xFFFF) by (nonlinear_arith)
        requires
            w <= 0xFFFF,
            h <= 0xFFFF,
    ;
    let want = w * h;
    let mut rgb: Vec<u16> = Vec::new();
    let mut index: Vec<u8> = Vec::new();
    let mut i: usize = 0;
    while i < want
        invariant
            i <= want,
            want == w * h,
            rgb@.len() == i,
            index@.len() == i,
            forall|k: int| 0 <= k < i ==> #[trigger] rgb@[k] == (if k < idx@.len() && (idx@[k] as int) < pal@.len() { pal@[idx@[k] as int] } else { 0u16 }),
            forall|k: int| 0 <= k < i ==> #[trigger] index@[k] == (if k < idx@.len() { idx@[k] } else { 0u8 }),
        decreases want - i,
    {
        if i < idx.len() {
            let c = idx[i] as usize;
            rgb.push(if c < pal.len() { pal[c] } else { 0 });
            index.push(idx[i]);
        } else {
            rgb.push(0);
            index.push(0);
        }
        i = i + 1;
    }
    let im = Image { width: w, height: h, rgb565: rgb, transparent: tr, alpha: None, index: Some(index) };
    proof {
        let g = gif_image(idx@, w as int, h as int, pal@, tr);
        assert(im@.rgb565 =~= g.rgb565);
        assert(index@ =~= g.index->Some_0);
    }
    im
}

fn pal_len(flags: u8) -> (n: usize)
    ensures
        n == pow2u(((flags & 7) + 1) as nat),
        2 <= n <= 256,
{
    assert(flags & 7 <= 7) by (bit_vector);
    let k: u8 = (flags & 7) + 1;
    proof {
        lemma_pow2u_small(k as nat);
        reveal_with_fuel(pow2u, 9);
    }
    assert((1u32 << (k as u32)) <= 256 && (1u32 << (k as u32)) >= 2) by (bit_vector)
        requires
            1 <= k <= 8,
    ;
    (1u32 << (k as u32)) as usize
}

/// Decode the GIF-like payload of a type-1 image resource (the RGB565 palette replaces
/// GIF's RGB one).
pub fn decode_gif_variant(p: &[u8]) -> (r: Result<Image, ImgError>)
    ensures
        img_result(r) == spec_decode_gif(p@),
{
    if p.len() < 8 {
        return Err(ImgError::PayloadTooShort);
    }
    let flags = p[4];
    let mut o: u128 = 7;
    let mut palette: Vec<u16> = Vec::new();
    if flags & 0x80 != 0 {
        if p[6] != 0 {
            return Err(ImgError::BadPaletteFlag(p[6]));
        }
        let n = pal_len(flags);
        palette = read_palette(p, 7, n);
        o = 7 + 2 * n as u128;
    }
    let mut transparent: Option<u8> = None;
    let pl = p.len();
    loop
        invariant_except_break
            pl == p@.len(),
            o <= pl + 600,
            gif_scan(p@, o as int, palette@, transparent) == spec_decode_gif(p@),
        ensures
            o < pl,
            p@[o as int] == 0x2C,
            o + 10 <= pl,
            gif_scan(p@, o as int, palette@, transparent) == spec_decode_gif(p@),
        decreases pl + 600 - o,
    {
        if o >= pl as u128 {
            return Err(ImgError::NoImageDescriptor);
        }
        let at = o as usize;
        let b = p[at];
        if b == 0x21 {
            if at + 1 >= pl {
                return Err(ImgError::NoImageDescriptor);
            }
            let label = p[at + 1];
            let o2 = at + 2;
            if label == 0xF9 {
                if o2 >= pl || pl - o2 <= 4 {
                    return Err(ImgError::NoImageDescriptor);
                }
                let size = p[o2] as u128;
                if p[o2 + 1] & 1 != 0 {
                    transparent = Some(p[o2 + 4]);
                }
                o = o2 as u128 + size + 2;
                if o >= pl as u128 {
                    return Err(ImgError::NoImageDescriptor);
                }
            } else {
                if o2 >= pl {
                    return Err(ImgError::NoImageDescriptor);
                }
                let size = p[o2] as u128;
                let (_, no) = blocks(p, o2 as u128 + 1 + size);
                proof { lemma_blocks_end(p@, o2 + 1 + size); }
                if no <= o || no >= pl as u128 {
                    return Err(ImgError::NoImageDescriptor);
                }
                o = no;
            }
        } else if b == 0x2C {
            if pl - at < 10 {
                return Err(ImgError::NoImageDescriptor);
            }
            break;
        } else if b == 0x3B {
            return Err(ImgError::NoImageDescriptor);
        } else {
            o = o + 1;
        }
    }
    let at = o as usize;
    let w = u16le(p, at + 5) as usize;
    let h = u16le(p, at + 7) as usize;
    let lflags = p[at + 9];
    let mut o3: u128 = at as u128 + 10;
    if lflags & 0x80 != 0 {
        let n = pal_len(lflags);
        palette = read_palette(p, at + 10, n);
        o3 = o3 + 2 * n as u128;
    }
    if o3 >= pl as u128 {
        return Err(ImgError::NoImageDescriptor);
    }
    let mcs = p[o3 as usize];
    if mcs > 30 {
        return Err(ImgError::CodeSize(mcs));
    }
    let (data, _) = blocks(p, o3 + 1);
    let mut idx = lzw(data.as_slice(), mcs);
    if lflags & 0x40 != 0 {
        idx = deinterlace(idx.as_slice(), w, h);
    }
    Ok(make_gif_image(idx, w, h, &palette, transparent))
}

} // verus!

verus! {

// ---------------------------------------------------------------------------
// PNG

/// What zlib inflation (`miniz_oxide::inflate::decompress_to_vec_zlib`) yields for a
/// zlib stream, or `None` when the stream does not decompress.
pub uninterp spec fn zlib_inflate(data: Seq<u8>) -> Option<Seq<u8>>;

/// Inflate a zlib stream (`miniz_oxide::inflate::decompress_to_vec_zlib`); the result
/// depends on the input bytes alone.
#[verifier::external_body]
fn inflate_zlib(data: &[u8]) -> (r: Option<Vec<u8>>)
    ensures
        opt_bytes(r) == zlib_inflate(data@),
{
    match miniz_oxide::inflate::decompress_to_vec_zlib(data) {
        Ok(v) => Some(v),
        Err(_) => None,
    }
}

/// `n` zero bytes.
pub open spec fn zeros(n: int) -> Seq<u8> {
    Seq::new(n as nat, |i: int| 0u8)
}

/// The PNG Paeth predictor.
pub open spec fn spec_paeth(a: int, b: int, c: int) -> int {
    let p = a + b - c;
    let pa = if p - a >= 0 { p - a } else { a - p };
    let pb = if p - b >= 0 { p - b } else { b - p };
    let pc = if p - c >= 0 { p - c } else { c - p };
    if pa <= pb && pa <= pc { a } else if pb <= pc { b } else { c }
}

/// The predictor of PNG filter type `f` from the left, up and up-left bytes.
pub open spec fn predictor(f: u8, a: int, b: int, c: int) -> int {
    if f == 1 { a } else if f == 2 { b } else if f == 3 { (a + b) / 2 } else if f == 4 { spec_paeth(a, b, c) } else { 0 }
}

/// The first `n` bytes of a row after undoing filter `f` (bytes `bpp` apart are
/// neighbours; `prev` is the previous decoded row).
pub open spec fn unfilter(f: u8, line: Seq<u8>, prev: Seq<u8>, bpp: int, n: nat) -> Seq<u8>
    decreases n,
{
    if n == 0 {
        Seq::empty()
    } else {
        let r = unfilter(f, line, prev, bpp, (n - 1) as nat);
        let i = n - 1;
        let a = if i >= bpp { r[i - bpp] as int } else { 0 };
        let b = prev[i] as int;
        let c = if i >= bpp { prev[i - bpp] as int } else { 0 };
        r.push(((line[i] as int + predictor(f, a, b, c)) % 256) as u8)
    }
}

/// The raw bytes of the row whose filter byte is at `pos`, zero-padded to `rowbytes`.
pub open spec fn raw_line(raw: Seq<u8>, pos: int, rowbytes: int) -> Seq<u8> {
    let p1 = pos + 1;
    let end = if p1 + rowbytes <= raw.len() { p1 + rowbytes } else { raw.len() as int };
    raw.subrange(p1, end) + zeros(rowbytes - (end - p1))
}

/// The rows from row `y` on, each unfiltered against the one before and appended to
/// `acc`; decoding stops early where the data runs out.
pub open spec fn png_unfilter_rows(raw: Seq<u8>, rowbytes: int, bpp: int, h: int, y: int, pos: int, prev: Seq<u8>, acc: Seq<u8>) -> Result<Seq<u8>, ImgError>
    decreases h - y,
{
    if y >= h || pos < 0 || pos >= raw.len() {
        Ok(acc)
    } else {
        let f = raw[pos];
        if f > 4 {
            Err(ImgError::Filter(f))
        } else {
            let line = unfilter(f, raw_line(raw, pos, rowbytes), prev, bpp, rowbytes as nat);
            png_unfilter_rows(raw, rowbytes, bpp, h, y + 1, pos + 1 + rowbytes, line, acc + line)
        }
    }
}

/// Byte `i` of `out`, 0 outside it.
pub open spec fn byte_at(out: Seq<u8>, i: int) -> u8 {
    if 0 <= i < out.len() { out[i] } else { 0 }
}

/// RGB888 to RGB565.
pub open spec fn spec_to565(r: u8, g: u8, b: u8) -> u16 {
    (((r & 0xF8) as u16) << 8u16) | (((g & 0xFC) as u16) << 3u16) | ((b >> 3u8) as u16)
}

/// The palette index of pixel `x` of the row starting at `base`.
pub open spec fn pal_index(out: Seq<u8>, base: int, x: int, depth: u8) -> int {
    if depth == 8 {
        byte_at(out, base + x) as int
    } else {
        let per = 8int / (depth as int);
        let b = byte_at(out, base + x / per);
        let sh = 8 - (depth as int) * (x % per + 1);
        ((b >> (sh as u8)) & (((1u8 << depth) - 1) as u8)) as int
    }
}

/// Colour and transparency (1 = transparent) of pixel `x` of the row starting at `base`.
pub open spec fn png_pixel(out: Seq<u8>, base: int, x: int, depth: u8, ctype: u8, chans: int, plte: Seq<u8>, trns: Seq<u8>) -> (u16, u8) {
    if ctype == 3 {
        let k = pal_index(out, base, x, depth);
        let c = if k < plte.len() / 3 { spec_to565(plte[3 * k], plte[3 * k + 1], plte[3 * k + 2]) } else { 0u16 };
        let a: u8 = if k < trns.len() { trns[k] } else { 255 };
        (c, if a < 128 { 1u8 } else { 0u8 })
    } else {
        let p = base + x * chans;
        let g0 = byte_at(out, p);
        let (r, g, b, a) = if ctype == 0 {
            (g0, g0, g0, 255u8)
        } else if ctype == 4 {
            (g0, g0, g0, byte_at(out, p + 1))
        } else if ctype == 2 {
            (g0, byte_at(out, p + 1), byte_at(out, p + 2), 255u8)
        } else {
            (g0, byte_at(out, p + 1), byte_at(out, p + 2), byte_at(out, p + 3))
        };
        (spec_to565(r, g, b), if a < 128 { 1u8 } else { 0u8 })
    }
}

/// Channels per pixel of a PNG colour type.
pub open spec fn png_chans(ctype: u8) -> int {
    if ctype == 0 { 1 } else if ctype == 2 { 3 } else if ctype == 3 { 1 } else if ctype == 4 { 2 } else if ctype == 6 { 4 } else { 0 }
}

/// Bytes per row of a `w` pixel wide PNG row.
pub open spec fn png_rowbytes(w: int, depth: u8, ctype: u8) -> int {
    if depth == 8 { w * png_chans(ctype) } else { (w * depth + 7) / 8 }
}

/// Whether the bit depth is supported for the colour type.
pub open spec fn png_depth_ok(depth: u8, ctype: u8) -> bool {
    depth == 8 || ((depth == 1 || depth == 2 || depth == 4) && ctype == 3)
}

/// Pixel `i` (row-major) of a `w` pixel wide image whose unfiltered bytes are `out`.
pub open spec fn png_pixel_at(out: Seq<u8>, i: int, w: int, rowbytes: int, depth: u8, ctype: u8, plte: Seq<u8>, trns: Seq<u8>) -> (u16, u8) {
    png_pixel(out, (i / w) * rowbytes, i % w, depth, ctype, png_chans(ctype), plte, trns)
}

/// The RGB565 colours of the `w` x `h` pixels, row-major.
pub open spec fn png_rgb(out: Seq<u8>, w: int, h: int, rowbytes: int, depth: u8, ctype: u8, plte: Seq<u8>, trns: Seq<u8>) -> Seq<u16> {
    Seq::new((w * h) as nat, |i: int| png_pixel_at(out, i, w, rowbytes, depth, ctype, plte, trns).0)
}

/// The transparency flags (1 = transparent) of the `w` x `h` pixels, row-major.
pub open spec fn png_alpha(out: Seq<u8>, w: int, h: int, rowbytes: int, depth: u8, ctype: u8, plte: Seq<u8>, trns: Seq<u8>) -> Seq<u8> {
    Seq::new((w * h) as nat, |i: int| png_pixel_at(out, i, w, rowbytes, depth, ctype, plte, trns).1)
}

/// Whether some byte of `s` is not zero.
pub open spec fn has_nonzero(s: Seq<u8>) -> bool {
    exists|i: int| 0 <= i < s.len() && s[i] != 0
}

/// What decoding the inflated IDAT data `raw` of a `w` x `h` PNG yields.
pub open spec fn spec_png_raw(raw: Seq<u8>, w: int, h: int, depth: u8, ctype: u8, plte: Seq<u8>, trns: Seq<u8>) -> Result<SpecImage, ImgError> {
    let chans = png_chans(ctype);
    if chans == 0 {
        Err(ImgError::ColorType(ctype))
    } else if !png_depth_ok(depth, ctype) {
        Err(ImgError::Depth { depth, ctype })
    } else {
        let bpp = if depth == 8 { chans } else { 1 };
        let rowbytes = png_rowbytes(w, depth, ctype);
        if rowbytes * h > isize::MAX || w * h * 2 > isize::MAX {
            Err(ImgError::TooLarge)
        } else {
            match png_unfilter_rows(raw, rowbytes, bpp, h, 0, 0, zeros(rowbytes), Seq::empty()) {
                Err(e) => Err(e),
                Ok(out) => {
                    let rgb = png_rgb(out, w, h, rowbytes, depth, ctype, plte, trns);
                    let alpha = png_alpha(out, w, h, rowbytes, depth, ctype, plte, trns);
                    let any = has_nonzero(alpha);
                    Ok(SpecImage { width: w, height: h, rgb565: rgb, transparent: None, alpha: if any { Some(alpha) } else { None }, index: None })
                },
            }
        }
    }
}

/// The chunks of a PNG read so far.
pub struct PngChunks {
    pub idat: Seq<u8>,
    pub plte: Seq<u8>,
    pub trns: Seq<u8>,
    pub w: int,
    pub h: int,
    pub depth: u8,
    pub ctype: u8,
    pub have_ihdr: bool,
}

/// Whether the four bytes at `at` are the chunk type `t`.
pub open spec fn tag_is(d: Seq<u8>, at: int, t: Seq<u8>) -> bool {
    d.subrange(at, at + 4) == t
}

/// The end of the body of the chunk at `o` (clipped to the data).
pub open spec fn chunk_end(d: Seq<u8>, o: int) -> int {
    let ln = spec_be32_at(d, o);
    if o + 8 + ln <= d.len() { o + 8 + ln } else { d.len() as int }
}

/// The effect of the chunk at `o` on the walk: IHDR sets the geometry, PLTE and tRNS
/// the palette, IDAT chunks accumulate, IEND stops the walk (`None`).
pub open spec fn png_chunk_step(d: Seq<u8>, o: int, st: PngChunks) -> Result<Option<PngChunks>, ImgError> {
    let body = d.subrange(o + 8, chunk_end(d, o));
    if tag_is(d, o + 4, seq![73u8, 72, 68, 82]) {
        if body.len() < 13 {
            Err(ImgError::IhdrTooShort)
        } else if body[12] != 0 {
            Err(ImgError::Interlaced)
        } else {
            Ok(Some(PngChunks { w: spec_be32_at(body, 0), h: spec_be32_at(body, 4), depth: body[8], ctype: body[9], have_ihdr: true, ..st }))
        }
    } else if tag_is(d, o + 4, seq![80u8, 76, 84, 69]) {
        Ok(Some(PngChunks { plte: body, ..st }))
    } else if tag_is(d, o + 4, seq![116u8, 82, 78, 83]) {
        Ok(Some(PngChunks { trns: body, ..st }))
    } else if tag_is(d, o + 4, seq![73u8, 68, 65, 84]) {
        Ok(Some(PngChunks { idat: st.idat + body, ..st }))
    } else if tag_is(d, o + 4, seq![73u8, 69, 78, 68]) {
        Ok(None)
    } else {
        Ok(Some(st))
    }
}

/// The chunk walk from `o` on, while a whole chunk header remains.
pub open spec fn png_chunks(d: Seq<u8>, o: int, st: PngChunks) -> Result<PngChunks, ImgError>
    decreases d.len() - o,
{
    if o < 0 || o + 8 > d.len() {
        Ok(st)
    } else {
        let next = o + 12 + spec_be32_at(d, o);
        match png_chunk_step(d, o, st) {
            Err(e) => Err(e),
            Ok(None) => Ok(st),
            Ok(Some(s2)) => if next + 8 > d.len() { Ok(s2) } else { png_chunks(d, next, s2) },
        }
    }
}

/// Big-endian u32 at `at` (which must lie inside `d`).
pub open spec fn spec_be32_at(d: Seq<u8>, at: int) -> int {
    d[at] as int * 0x100_0000 + d[at + 1] as int * 0x1_0000 + d[at + 2] as int * 0x100 + d[at + 3] as int
}

/// The PNG signature.
pub open spec fn png_sig() -> Seq<u8> {
    seq![0x89u8, 0x50, 0x4E, 0x47, 0x0D, 0x0A, 0x1A, 0x0A]
}

/// What `decode_png` returns.
pub open spec fn spec_decode_png(data: Seq<u8>) -> Result<SpecImage, ImgError> {
    if data.len() < 8 || data.subrange(0, 8) != png_sig() {
        Err(ImgError::NotPng)
    } else {
        let init = PngChunks { idat: Seq::empty(), plte: Seq::empty(), trns: Seq::empty(), w: 0, h: 0, depth: 0, ctype: 0, have_ihdr: false };
        match png_chunks(data, 8, init) {
            Err(e) => Err(e),
            Ok(c) => if !c.have_ihdr {
                Err(ImgError::NoIhdr)
            } else {
                match zlib_inflate(c.idat) {
                    None => Err(ImgError::Inflate),
                    Some(raw) => spec_png_raw(raw, c.w, c.h, c.depth, c.ctype, c.plte, c.trns),
                }
            },
        }
    }
}

/// The errors of PNG decoding: an error of the chunk walk is the result; a walk
/// that ends (at IEND or at the end of the data) without IHDR gives `NoIhdr`; an
/// IHDR chunk shorter than 13 bytes gives `IhdrTooShort` and one with a nonzero
/// interlace byte `Interlaced`; a colour type outside 0, 2, 3, 4, 6 gives
/// `ColorType`, and a bit depth other than 8 (or 1, 2, 4 with a palette) `Depth`.
pub proof fn png_error_law(data: Seq<u8>, o: int, st: PngChunks, raw: Seq<u8>, w: int, h: int, depth: u8, ctype: u8, plte: Seq<u8>, trns: Seq<u8>)
    ensures
        ({
            let init = PngChunks { idat: Seq::empty(), plte: Seq::empty(), trns: Seq::empty(), w: 0, h: 0, depth: 0, ctype: 0, have_ihdr: false };
            &&& (data.len() >= 8 && data.subrange(0, 8) == png_sig() && png_chunks(data, 8, init) is Err)
                ==> spec_decode_png(data) == Err::<SpecImage, ImgError>(png_chunks(data, 8, init)->Err_0)
            &&& (data.len() >= 8 && data.subrange(0, 8) == png_sig() && png_chunks(data, 8, init) is Ok && !png_chunks(data, 8, init)->Ok_0.have_ihdr)
                ==> spec_decode_png(data) == Err::<SpecImage, ImgError>(ImgError::NoIhdr)
        }),
        (0 <= o && o + 8 <= data.len() && tag_is(data, o + 4, seq![73u8, 72, 68, 82])) ==> ({
            let body = data.subrange(o + 8, chunk_end(data, o));
            &&& body.len() < 13 ==> png_chunk_step(data, o, st) == Err::<Option<PngChunks>, ImgError>(ImgError::IhdrTooShort)
            &&& (body.len() >= 13 && body[12] != 0) ==> png_chunk_step(data, o, st) == Err::<Option<PngChunks>, ImgError>(ImgError::Interlaced)
        }),
        !(ctype == 0 || ctype == 2 || ctype == 3 || ctype == 4 || ctype == 6)
            ==> spec_png_raw(raw, w, h, depth, ctype, plte, trns) == Err::<SpecImage, ImgError>(ImgError::ColorType(ctype)),
        ((ctype == 0 || ctype == 2 || ctype == 3 || ctype == 4 || ctype == 6)
            && !(depth == 8 || ((depth == 1 || depth == 2 || depth == 4) && ctype == 3)))
            ==> spec_png_raw(raw, w, h, depth, ctype, plte, trns) == Err::<SpecImage, ImgError>(ImgError::Depth { depth, ctype }),
{
}

/// What decoding a PNG gives: an error without the PNG signature; an image has
/// `width * height` pixels in RGB565, no palette indices and no transparent index,
/// and an alpha mask only where some pixel is transparent: then one flag a pixel, 1
/// for transparent (alpha below 128) and 0 otherwise.
pub proof fn png_decode_law(data: Seq<u8>)
    ensures
        (data.len() < 8 || data.subrange(0, 8) != png_sig()) ==> spec_decode_png(data) == Err::<SpecImage, ImgError>(ImgError::NotPng),
        spec_decode_png(data) matches Ok(im) ==> {
            &&& im.rgb565.len() == (im.width * im.height) as nat
            &&& im.transparent is None
            &&& im.index is None
            &&& im.alpha matches Some(a) ==> {
                &&& a.len() == (im.width * im.height) as nat
                &&& forall|i: int| 0 <= i < a.len() ==> #[trigger] a[i] == 0 || a[i] == 1
                &&& exists|i: int| 0 <= i < a.len() && a[i] == 1
            }
        },
{
    if let Ok(im) = spec_decode_png(data) {
        if let Some(a) = im.alpha {
            assert forall|i: int| 0 <= i < a.len() implies #[trigger] a[i] == 0 || a[i] == 1 by {
            }
            assert(has_nonzero(a));
            let j = choose|j: int| 0 <= j < a.len() && a[j] != 0;
            assert(a[j] == 1);
        }
    }
}

} // verus!

verus! {

/// The PNG Paeth predictor: whichever of left (`a`), up (`b`) and up-left (`c`) is
/// closest to `a + b - c`, preferring `a`, then `b`.
pub fn paeth(a: i32, b: i32, c: i32) -> (r: i32)
    requires
        i32::MIN <= a + b <= i32::MAX,
        i32::MIN <= a + b - c <= i32::MAX,
        i32::MIN < b - c <= i32::MAX,
        i32::MIN < a - c <= i32::MAX,
        i32::MIN < a + b - 2 * c <= i32::MAX,
    ensures
        r == spec_paeth(a as int, b as int, c as int),
{
    let p = a + b - c;
    let pa = if p - a >= 0 { p - a } else { a - p };
    let pb = if p - b >= 0 { p - b } else { b - p };
    let pc = if p - c >= 0 { p - c } else { c - p };
    if pa <= pb && pa <= pc {
        a
    } else if pb <= pc {
        b
    } else {
        c
    }
}

proof fn lemma_unfilter_len(f: u8, line: Seq<u8>, prev: Seq<u8>, bpp: int, n: nat)
    ensures
        unfilter(f, line, prev, bpp, n).len() == n,
    decreases n,
{
    if n > 0 {
        lemma_unfilter_len(f, line, prev, bpp, (n - 1) as nat);
    }
}

/// Undo filter `f` on one row.
fn unfilter_row(f: u8, line: &Vec<u8>, prev: &Vec<u8>, bpp: usize) -> (r: Vec<u8>)
    requires
        line.len() == prev.len(),
        f <= 4,
        bpp >= 1,
    ensures
        r@ == unfilter(f, line@, prev@, bpp as int, line.len() as nat),
{
    let n = line.len();
    let mut r: Vec<u8> = Vec::new();
    let mut i: usize = 0;
    while i < n
        invariant
            i <= n,
            n == line.len(),
            n == prev.len(),
            f <= 4,
            bpp >= 1,
            r@ == unfilter(f, line@, prev@, bpp as int, i as nat),
        decreases n - i,
    {
        proof {
            lemma_unfilter_len(f, line@, prev@, bpp as int, i as nat);
        }
        let a: u32 = if i >= bpp { r[i - bpp] as u32 } else { 0 };
        let b: u32 = prev[i] as u32;
        let c: u32 = if i >= bpp { prev[i - bpp] as u32 } else { 0 };
        let pr: u32 = if f == 1 {
            a
        } else if f == 2 {
            b
        } else if f == 3 {
            (a + b) / 2
        } else if f == 4 {
            paeth(a as i32, b as i32, c as i32) as u32
        } else {
            0
        };
        let v = ((line[i] as u32 + pr) % 256) as u8;
        r.push(v);
        i = i + 1;
    }
    r
}

/// The raw bytes of the row whose filter byte is at `pos`, zero-padded to `rowbytes`.
fn raw_line_at(raw: &[u8], pos: usize, rowbytes: usize) -> (r: Vec<u8>)
    requires
        pos < raw.len(),
    ensures
        r@ == raw_line(raw@, pos as int, rowbytes as int),
{
    let p1 = pos + 1;
    let end = if rowbytes <= raw.len() - p1 { p1 + rowbytes } else { raw.len() };
    let mut r: Vec<u8> = Vec::new();
    let mut i = p1;
    while i < end
        invariant
            p1 <= i <= end <= raw.len(),
            r@ == raw@.subrange(p1 as int, i as int),
        decreases end - i,
    {
        r.push(raw[i]);
        i = i + 1;
        assert(r@ =~= raw@.subrange(p1 as int, i as int));
    }
    let got = end - p1;
    let mut k = got;
    while k < rowbytes
        invariant
            got <= k <= rowbytes,
            got == end - p1,
            r@ == raw@.subrange(p1 as int, end as int) + zeros(k - got),
        decreases rowbytes - k,
    {
        r.push(0);
        k = k + 1;
        assert(r@ =~= raw@.subrange(p1 as int, end as int) + zeros(k - got));
    }
    r
}

/// The value of a byte-vector result.
pub open spec fn bytes_result(r: Result<Vec<u8>, ImgError>) -> Result<Seq<u8>, ImgError> {
    match r {
        Ok(v) => Ok(v@),
        Err(e) => Err(e),
    }
}

/// Unfilter the rows of the inflated IDAT data.
fn unfilter_rows(raw: &[u8], rowbytes: usize, bpp: usize, h: u32) -> (r: Result<Vec<u8>, ImgError>)
    requires
        bpp >= 1,
    ensures
        bytes_result(r) == png_unfilter_rows(raw@, rowbytes as int, bpp as int, h as int, 0, 0,
            zeros(rowbytes as int), Seq::empty()),
{
    let mut prev: Vec<u8> = Vec::new();
    let mut k: usize = 0;
    while k < rowbytes
        invariant
            k <= rowbytes,
            prev@ == zeros(k as int),
        decreases rowbytes - k,
    {
        prev.push(0);
        k = k + 1;
        assert(prev@ =~= zeros(k as int));
    }
    let ghost start = png_unfilter_rows(raw@, rowbytes as int, bpp as int, h as int, 0, 0,
        zeros(rowbytes as int), Seq::empty());
    let mut out: Vec<u8> = Vec::new();
    let mut y: u32 = 0;
    let mut pos: u128 = 0;
    while y < h && pos < raw.len() as u128
        invariant
            y <= h,
            bpp >= 1,
            pos <= raw.len() as int + 1 + rowbytes as int,
            prev.len() == rowbytes,
            start == png_unfilter_rows(raw@, rowbytes as int, bpp as int, h as int, 0, 0, zeros(rowbytes as int), Seq::empty()),
            start == png_unfilter_rows(raw@, rowbytes as int, bpp as int, h as int, y as int, pos as int, prev@, out@),
        decreases h - y,
    {
        let p = pos as usize;
        let f = raw[p];
        assert(raw@[pos as int] == f);
        if f > 4 {
            assert(png_unfilter_rows(raw@, rowbytes as int, bpp as int, h as int, y as int, pos as int, prev@, out@)
                == Err::<Seq<u8>, ImgError>(ImgError::Filter(f)));
            return Err(ImgError::Filter(f));
        }
        let line = raw_line_at(raw, p, rowbytes);
        proof {
            lemma_unfilter_len(f, line@, prev@, bpp as int, rowbytes as nat);
        }
        let l2 = unfilter_row(f, &line, &prev, bpp);
        let mut i: usize = 0;
        let ghost out0 = out@;
        while i < l2.len()
            invariant
                i <= l2.len(),
                out@ == out0 + l2@.subrange(0, i as int),
            decreases l2.len() - i,
        {
            out.push(l2[i]);
            i = i + 1;
            assert(out@ =~= out0 + l2@.subrange(0, i as int));
        }
        assert(l2@.subrange(0, l2.len() as int) =~= l2@);
        prev = l2;
        y = y + 1;
        pos = pos + 1 + rowbytes as u128;
    }
    Ok(out)
}

} // verus!

verus! {

fn byte_at_exec(out: &Vec<u8>, i: u128) -> (r: u8)
    ensures
        r == byte_at(out@, i as int),
{
    if i < out.len() as u128 {
        out[i as usize]
    } else {
        0
    }
}

/// RGB888 to RGB565.
pub fn to565(r: u8, g: u8, b: u8) -> (c: u16)
    ensures
        c == spec_to565(r, g, b),
{
    (((r & 0xF8) as u16) << 8u16) | (((g & 0xFC) as u16) << 3u16) | ((b >> 3u8) as u16)
}

fn pal_index_at(out: &Vec<u8>, base: u128, x: u128, depth: u8) -> (r: u128)
    requires
        depth == 8 || depth == 1 || depth == 2 || depth == 4,
        base < 0x1_0000_0000_0000_0000_0000_0000,
        x < 0x1_0000_0000_0000_0000,
    ensures
        r == pal_index(out@, base as int, x as int, depth),
        r < 256,
{
    if depth == 8 {
        byte_at_exec(out, base + x) as u128
    } else {
        let per: u128 = if depth == 1 { 8 } else if depth == 2 { 4 } else { 2 };
        assert(per as int == 8int / (depth as int));
        let b = byte_at_exec(out, base + x / per);
        let q = x % per;
        proof {
            assert(depth as int * per as int == 8);
            assert(depth as int * (q as int + 1) <= 8) by (nonlinear_arith)
                requires
                    depth as int * per as int == 8,
                    q < per,
                    depth >= 1,
            ;
        }
        let sh: u8 = (8 - depth as u128 * (q + 1)) as u8;
        assert((1u8 << depth) >= 1u8) by (bit_vector)
            requires
                depth <= 4u8,
        ;
        let m: u8 = 1u8 << depth;
        ((b >> sh) & (m - 1)) as u128
    }
}

fn png_pixel_exec(out: &Vec<u8>, base: u128, x: u128, depth: u8, ctype: u8, plte: &[u8], trns: &[u8]) -> (r: (u16, u8))
    requires
        png_chans(ctype) > 0,
        png_depth_ok(depth, ctype),
        base < 0x1_0000_0000_0000_0000_0000_0000,
        x < 0x1_0000_0000_0000_0000,
    ensures
        r == png_pixel(out@, base as int, x as int, depth, ctype, png_chans(ctype), plte@, trns@),
{
    if ctype == 3 {
        let k = pal_index_at(out, base, x, depth);
        let c: u16 = if k < (plte.len() / 3) as u128 {
            let k3 = (3 * k) as usize;
            to565(plte[k3], plte[k3 + 1], plte[k3 + 2])
        } else {
            0
        };
        let a: u8 = if k < trns.len() as u128 { trns[k as usize] } else { 255 };
        (c, if a < 128 { 1u8 } else { 0u8 })
    } else {
        let chans: u128 = if ctype == 0 { 1 } else if ctype == 2 { 3 } else if ctype == 4 { 2 } else { 4 };
        assert(x * chans <= 4 * 0x1_0000_0000_0000_0000) by (nonlinear_arith)
            requires
                x < 0x1_0000_0000_0000_0000,
                chans <= 4,
        ;
        let p = base + x * chans;
        let g0 = byte_at_exec(out, p);
        let (r, g, b, a) = if ctype == 0 {
            (g0, g0, g0, 255u8)
        } else if ctype == 4 {
            (g0, g0, g0, byte_at_exec(out, p + 1))
        } else if ctype == 2 {
            (g0, byte_at_exec(out, p + 1), byte_at_exec(out, p + 2), 255u8)
        } else {
            (g0, byte_at_exec(out, p + 1), byte_at_exec(out, p + 2), byte_at_exec(out, p + 3))
        };
        (to565(r, g, b), if a < 128 { 1u8 } else { 0u8 })
    }
}

fn png_pixels(out: &Vec<u8>, w: u32, h: u32, rowbytes: u64, depth: u8, ctype: u8, plte: &[u8], trns: &[u8]) -> (r: (Vec<u16>, Vec<u8>))
    requires
        png_chans(ctype) > 0,
        png_depth_ok(depth, ctype),
        rowbytes < 0x10_0000_0000,
    ensures
        r.0@ == png_rgb(out@, w as int, h as int, rowbytes as int, depth, ctype, plte@, trns@),
        r.1@ == png_alpha(out@, w as int, h as int, rowbytes as int, depth, ctype, plte@, trns@),
{
    let ghost wi = w as int;
    let mut rgb: Vec<u16> = Vec::new();
    let mut alpha: Vec<u8> = Vec::new();
    let mut y: u32 = 0;
    while y < h
        invariant
            y <= h,
            png_chans(ctype) > 0,
            png_depth_ok(depth, ctype),
            rowbytes < 0x10_0000_0000,
            rgb.len() == y as int * wi,
            alpha.len() == y as int * wi,
            wi == w as int,
            forall|j: int| 0 <= j < rgb.len() ==> #[trigger] rgb@[j] == png_pixel_at(out@, j, wi, rowbytes as int, depth, ctype, plte@, trns@).0,
            forall|j: int| 0 <= j < alpha.len() ==> #[trigger] alpha@[j] == png_pixel_at(out@, j, wi, rowbytes as int, depth, ctype, plte@, trns@).1,
        decreases h - y,
    {
        let mut x: u32 = 0;
        assert((y as u128) * (rowbytes as u128) < 0x1_0000_0000_0000_0000_0000_0000) by (nonlinear_arith)
            requires
                y < 0x1_0000_0000,
                rowbytes < 0x10_0000_0000,
        ;
        let base: u128 = y as u128 * rowbytes as u128;
        while x < w
            invariant
                x <= w,
                y < h,
                png_chans(ctype) > 0,
                png_depth_ok(depth, ctype),
                base == y as int * rowbytes as int,
                base < 0x1_0000_0000_0000_0000_0000_0000,
                rgb.len() == y as int * wi + x,
                alpha.len() == y as int * wi + x,
                wi == w as int,
                forall|j: int| 0 <= j < rgb.len() ==> #[trigger] rgb@[j] == png_pixel_at(out@, j, wi, rowbytes as int, depth, ctype, plte@, trns@).0,
                forall|j: int| 0 <= j < alpha.len() ==> #[trigger] alpha@[j] == png_pixel_at(out@, j, wi, rowbytes as int, depth, ctype, plte@, trns@).1,
            decreases w - x,
        {
            let ghost j = y as int * wi + x as int;
            proof {
                vstd::arithmetic::div_mod::lemma_fundamental_div_mod_converse(j, wi, y as int, x as int);
            }
            let (c, a) = png_pixel_exec(out, base, x as u128, depth, ctype, plte, trns);
            rgb.push(c);
            alpha.push(a);
            x = x + 1;
        }
        assert(y as int * wi + wi == (y as int + 1) * wi) by (nonlinear_arith);
        y = y + 1;
    }
    assert(h as int * wi == wi * h as int) by (nonlinear_arith);
    assert(rgb@ =~= png_rgb(out@, w as int, h as int, rowbytes as int, depth, ctype, plte@, trns@));
    assert(alpha@ =~= png_alpha(out@, w as int, h as int, rowbytes as int, depth, ctype, plte@, trns@));
    (rgb, alpha)
}

} // verus!

verus! {

fn any_nonzero(v: &Vec<u8>) -> (r: bool)
    ensures
        r == has_nonzero(v@),
{
    let mut i: usize = 0;
    while i < v.len()
        invariant
            i <= v.len(),
            forall|j: int| 0 <= j < i ==> v@[j] == 0,
        decreases v.len() - i,
    {
        if v[i] != 0 {
            return true;
        }
        i = i + 1;
    }
    false
}

/// Decode the inflated IDAT data `raw` of a `w` x `h` PNG with bit depth `depth`,
/// colour type `ctype`, palette `plte` and palette transparency `trns`.
#[verifier::spinoff_prover]
#[verifier::rlimit(40)]
pub fn png_from_raw(raw: &[u8], w: u32, h: u32, depth: u8, ctype: u8, plte: &[u8], trns: &[u8]) -> (r: Result<Image, ImgError>)
    ensures
        img_result(r) == spec_png_raw(raw@, w as int, h as int, depth, ctype, plte@, trns@),
{
    let chans: u64 = if ctype == 0 {
        1
    } else if ctype == 2 {
        3
    } else if ctype == 3 {
        1
    } else if ctype == 4 {
        2
    } else if ctype == 6 {
        4
    } else {
        return Err(ImgError::ColorType(ctype));
    };
    if !(depth == 8 || ((depth == 1 || depth == 2 || depth == 4) && ctype == 3)) {
        return Err(ImgError::Depth { depth, ctype });
    }
    let bpp: usize = if depth == 8 { chans as usize } else { 1 };
    assert((w as u64) * chans <= 4 * 0xFFFF_FFFFu64) by (nonlinear_arith)
        requires
            chans <= 4,
    ;
    let rowbytes: u64 = if depth == 8 { w as u64 * chans } else { (w as u64 * depth as u64 + 7) / 8 };
    assert(chans as int == png_chans(ctype));
    assert(rowbytes as int == png_rowbytes(w as int, depth, ctype));
    assert(rowbytes < 0x10_0000_0000);
    assert((rowbytes as u128) * (h as u128) < 0x1_0000_0000_0000_0000_0000_0000) by (nonlinear_arith)
        requires
            rowbytes < 0x10_0000_0000,
    ;
    assert((w as u128) * (h as u128) * 2 < 0x1_0000_0000_0000_0000_0000_0000) by (nonlinear_arith);
    if (rowbytes as u128) * (h as u128) > isize::MAX as u128 || (w as u128) * (h as u128) * 2 > isize::MAX as u128 {
        return Err(ImgError::TooLarge);
    }
    let out: Vec<u8> = if h == 0 {
        Vec::new()
    } else {
        assert(rowbytes <= (rowbytes as u128) * (h as u128)) by (nonlinear_arith)
            requires
                h >= 1,
        ;
        match unfilter_rows(raw, rowbytes as usize, bpp, h) {
            Ok(v) => v,
            Err(e) => {
                return Err(e);
            },
        }
    };
    assert(png_unfilter_rows(raw@, rowbytes as int, bpp as int, h as int, 0, 0, zeros(rowbytes as int), Seq::empty())
        == Ok::<Seq<u8>, ImgError>(out@));
    let (rgb, alpha) = png_pixels(&out, w, h, rowbytes, depth, ctype, plte, trns);
    let any = any_nonzero(&alpha);
    let img = Image {
        width: w as usize,
        height: h as usize,
        rgb565: rgb,
        transparent: None,
        alpha: if any { Some(alpha) } else { None },
        index: None,
    };
    Ok(img)
}

} // verus!

verus! {

/// The chunks of a PNG read so far (see `PngChunks`).
struct ChunkScan {
    idat: Vec<u8>,
    plte: Vec<u8>,
    trns: Vec<u8>,
    w: u32,
    h: u32,
    depth: u8,
    ctype: u8,
    have_ihdr: bool,
}

impl View for ChunkScan {
    type V = PngChunks;

    closed spec fn view(&self) -> PngChunks {
        PngChunks {
            idat: self.idat@,
            plte: self.plte@,
            trns: self.trns@,
            w: self.w as int,
            h: self.h as int,
            depth: self.depth,
            ctype: self.ctype,
            have_ihdr: self.have_ihdr,
        }
    }
}

/// The chunk walk before any chunk was read.
pub open spec fn png_chunks_init() -> PngChunks {
    PngChunks { idat: Seq::empty(), plte: Seq::empty(), trns: Seq::empty(), w: 0, h: 0, depth: 0, ctype: 0, have_ihdr: false }
}

fn be32_at(d: &[u8], at: usize) -> (r: u32)
    requires
        at + 4 <= d.len(),
    ensures
        r == spec_be32_at(d@, at as int),
{
    (d[at] as u32) * 0x100_0000 + (d[at + 1] as u32) * 0x1_0000 + (d[at + 2] as u32) * 0x100 + d[at + 3] as u32
}

fn tag_at(d: &[u8], at: usize, a: u8, b: u8, c: u8, e: u8) -> (r: bool)
    requires
        at + 4 <= d.len(),
    ensures
        r == tag_is(d@, at as int, seq![a, b, c, e]),
{
    let r = d[at] == a && d[at + 1] == b && d[at + 2] == c && d[at + 3] == e;
    proof {
        let sub = d@.subrange(at as int, at as int + 4);
        if r {
            assert(sub =~= seq![a, b, c, e]);
        } else {
            assert(sub[0] == d@[at as int] && sub[1] == d@[at + 1] && sub[2] == d@[at + 2] && sub[3] == d@[at + 3]);
            assert(seq![a, b, c, e][0] == a && seq![a, b, c, e][1] == b && seq![a, b, c, e][2] == c && seq![a, b, c, e][3] == e);
        }
    }
    r
}

/// Apply the chunk at `o` to the walk; `Ok(true)` at IEND.
fn chunk_step(d: &[u8], o: usize, st: &mut ChunkScan) -> (r: Result<bool, ImgError>)
    requires
        o + 8 <= d.len(),
    ensures
        match png_chunk_step(d@, o as int, old(st)@) {
            Err(e) => r == Err::<bool, ImgError>(e),
            Ok(None) => r == Ok::<bool, ImgError>(true) && final(st)@ == old(st)@,
            Ok(Some(s2)) => r == Ok::<bool, ImgError>(false) && final(st)@ == s2,
        },
{
    let ln = be32_at(d, o);
    let bs = o + 8;
    let end: usize = if ln as usize <= d.len() - bs { bs + ln as usize } else { d.len() };
    assert(end == chunk_end(d@, o as int));
    let ghost body = d@.subrange(bs as int, end as int);
    if tag_at(d, o + 4, 73, 72, 68, 82) {
        if end - bs < 13 {
            return Err(ImgError::IhdrTooShort);
        }
        assert(body[12] == d@[bs + 12]);
        if d[bs + 12] != 0 {
            return Err(ImgError::Interlaced);
        }
        let w = be32_at(d, bs);
        let h = be32_at(d, bs + 4);
        assert(spec_be32_at(body, 0) == spec_be32_at(d@, bs as int));
        assert(spec_be32_at(body, 4) == spec_be32_at(d@, bs as int + 4));
        assert(body[8] == d@[bs + 8] && body[9] == d@[bs + 9]);
        st.w = w;
        st.h = h;
        st.depth = d[bs + 8];
        st.ctype = d[bs + 9];
        st.have_ihdr = true;
        assert(png_chunk_step(d@, o as int, old(st)@) == Ok::<Option<PngChunks>, ImgError>(Some(st@)));
        Ok(false)
    } else if tag_at(d, o + 4, 80, 76, 84, 69) {
        st.plte = vstd::slice::slice_to_vec(&d[bs..end]);
        assert(png_chunk_step(d@, o as int, old(st)@) == Ok::<Option<PngChunks>, ImgError>(Some(st@)));
        Ok(false)
    } else if tag_at(d, o + 4, 116, 82, 78, 83) {
        st.trns = vstd::slice::slice_to_vec(&d[bs..end]);
        assert(png_chunk_step(d@, o as int, old(st)@) == Ok::<Option<PngChunks>, ImgError>(Some(st@)));
        Ok(false)
    } else if tag_at(d, o + 4, 73, 68, 65, 84) {
        let mut part = vstd::slice::slice_to_vec(&d[bs..end]);
        st.idat.append(&mut part);
        assert(png_chunk_step(d@, o as int, old(st)@) == Ok::<Option<PngChunks>, ImgError>(Some(st@)));
        Ok(false)
    } else if tag_at(d, o + 4, 73, 69, 78, 68) {
        Ok(true)
    } else {
        Ok(false)
    }
}

/// Walk the chunks of a PNG from just past its signature.
fn scan_chunks(d: &[u8]) -> (r: Result<ChunkScan, ImgError>)
    ensures
        match r {
            Ok(c) => png_chunks(d@, 8, png_chunks_init()) == Ok::<PngChunks, ImgError>(c@),
            Err(e) => png_chunks(d@, 8, png_chunks_init()) == Err::<PngChunks, ImgError>(e),
        },
{
    let mut st = ChunkScan {
        idat: Vec::new(),
        plte: Vec::new(),
        trns: Vec::new(),
        w: 0,
        h: 0,
        depth: 0,
        ctype: 0,
        have_ihdr: false,
    };
    assert(st@ == png_chunks_init());
    let ghost start = png_chunks(d@, 8, png_chunks_init());
    let mut o: u128 = 8;
    let mut done = false;
    while !done && o + 8 <= d.len() as u128
        invariant
            o <= d.len() as int + 0x1_0000_0010,
            start == png_chunks(d@, 8, png_chunks_init()),
            start == if done { Ok::<PngChunks, ImgError>(st@) } else { png_chunks(d@, o as int, st@) },
        decreases d.len() as int + 0x1_0000_0020 - o + if done { 0int } else { 1int },
    {
        let oo = o as usize;
        let ln = be32_at(d, oo);
        match chunk_step(d, oo, &mut st) {
            Err(e) => {
                return Err(e);
            },
            Ok(stop) => {
                if stop {
                    done = true;
                } else {
                    o = o + 12 + ln as u128;
                }
            },
        }
    }
    Ok(st)
}

/// Decode a PNG: 8-bit grey, grey+alpha, RGB, RGBA and 8-bit palette images, and
/// 1, 2 and 4-bit palette images; interlaced images are refused.
pub fn decode_png(data: &[u8]) -> (r: Result<Image, ImgError>)
    ensures
        img_result(r) == spec_decode_png(data@),
{
    if data.len() < 8 || !(data[0] == 0x89 && data[1] == 0x50 && data[2] == 0x4E && data[3] == 0x47
        && data[4] == 0x0D && data[5] == 0x0A && data[6] == 0x1A && data[7] == 0x0A) {
        proof {
            if data.len() >= 8 && data@.subrange(0, 8) == png_sig() {
                assert(data@.subrange(0, 8)[0] == data@[0]);
                assert(data@.subrange(0, 8)[7] == data@[7]);
                assert(data@.subrange(0, 8)[1] == data@[1]);
                assert(data@.subrange(0, 8)[2] == data@[2]);
                assert(data@.subrange(0, 8)[3] == data@[3]);
                assert(data@.subrange(0, 8)[4] == data@[4]);
                assert(data@.subrange(0, 8)[5] == data@[5]);
                assert(data@.subrange(0, 8)[6] == data@[6]);
            }
        }
        return Err(ImgError::NotPng);
    }
    assert(data@.subrange(0, 8) =~= png_sig());
    let c = match scan_chunks(data) {
        Ok(c) => c,
        Err(e) => {
            return Err(e);
        },
    };
    if !c.have_ihdr {
        return Err(ImgError::NoIhdr);
    }
    let raw = match inflate_zlib(c.idat.as_slice()) {
        Some(v) => v,
        None => {
            return Err(ImgError::Inflate);
        },
    };
    png_from_raw(raw.as_slice(), c.w, c.h, c.depth, c.ctype, c.plte.as_slice(), c.trns.as_slice())
}

} // verus!

verus! {

/// The image of a successful decoding, `None` on an error.
pub open spec fn ok_image(r: Result<SpecImage, ImgError>) -> Option<SpecImage> {
    match r {
        Ok(i) => Some(i),
        Err(_) => None,
    }
}

/// The value of an optional image.
pub open spec fn opt_image(r: Option<Image>) -> Option<SpecImage> {
    match r {
        Some(i) => Some(i@),
        None => None,
    }
}

/// The pixels of a raw RGB565 entry: `w * h` little-endian values from byte 8 on
/// (0 past the end of the entry).
pub open spec fn raw565_pixels(entry: Seq<u8>, n: int) -> Seq<u16> {
    Seq::new(n as nat, |i: int| spec_u16le(entry, 8 + 2 * i))
}

/// What `decode` makes of a resource entry: by its first byte, 0 a raw RGB565
/// bitmap (big-endian width and height at 1 and 3), 1 the GIF variant, 3 a PNG
/// after a 9-byte header; anything else, or a failed decoding, gives `None`.
pub open spec fn spec_decode(entry: Seq<u8>) -> Option<SpecImage> {
    if entry.len() == 0 {
        None
    } else if entry[0] == 0 {
        let w = spec_u16be(entry, 1) as int;
        let h = spec_u16be(entry, 3) as int;
        Some(SpecImage { width: w, height: h, rgb565: raw565_pixels(entry, w * h), transparent: None, alpha: None, index: None })
    } else if entry[0] == 1 {
        ok_image(spec_decode_gif(entry.subrange(1, entry.len() as int)))
    } else if entry[0] == 3 {
        if entry.len() > 9 { ok_image(spec_decode_png(entry.subrange(9, entry.len() as int))) } else { None }
    } else {
        None
    }
}

fn decode_raw565(entry: &[u8]) -> (r: Image)
    requires
        entry.len() > 0,
    ensures
        r@.width == spec_u16be(entry@, 1) as int,
        r@.height == spec_u16be(entry@, 3) as int,
        r@.rgb565 == raw565_pixels(entry@, r@.width * r@.height),
        r@.transparent == None::<u8>,
        r@.alpha == None::<Seq<u8>>,
        r@.index == None::<Seq<u8>>,
{
    let w = u16be(entry, 1) as usize;
    let h = u16be(entry, 3) as usize;
    assert(w * h <= 0xFFFF * 0xFFFF) by (nonlinear_arith)
        requires
            w <= 0xFFFF,
            h <= 0xFFFF,
    ;
    let n: usize = w * h;
    let mut rgb: Vec<u16> = Vec::new();
    let mut i: usize = 0;
    while i < n
        invariant
            i <= n,
            n <= 0xFFFF * 0xFFFF,
            rgb@ =~= raw565_pixels(entry@, i as int),
        decreases n - i,
    {
        let at: u64 = 8 + 2 * i as u64;
        let v: u16 = if at <= entry.len() as u64 && 2 <= entry.len() as u64 - at { u16le(entry, at as usize) } else { 0 };
        rgb.push(v);
        i = i + 1;
    }
    Image { width: w, height: h, rgb565: rgb, transparent: None, alpha: None, index: None }
}

/// Decode a resource image entry (see `spec_decode`).
pub fn decode(entry: &[u8]) -> (r: Option<Image>)
    ensures
        opt_image(r) == spec_decode(entry@),
{
    if entry.len() == 0 {
        return None;
    }
    if entry[0] == 0 {
        Some(decode_raw565(entry))
    } else if entry[0] == 1 {
        let r = decode_gif_variant(&entry[1..entry.len()]);
        assert(entry@.subrange(1, entry@.len() as int) == entry@.subrange(1, entry.len() as int));
        match r {
            Ok(i) => Some(i),
            Err(_) => None,
        }
    } else if entry[0] == 3 {
        if entry.len() > 9 {
            match decode_png(&entry[9..entry.len()]) {
                Ok(i) => Some(i),
                Err(_) => None,
            }
        } else {
            None
        }
    } else {
        None
    }
}

} // verus!

verus! {

// ---------------------------------------------------------------------------
// LZW code streams as a GIF encoder writes them, and what the decoder reads back

/// The width in bits of code `j` after the clear code: the table's next free code after
/// that many codes is `2^mcs + 1 + j`, and the width grows by one bit when that code
/// reaches `2^width` (up to 12 bits).
pub open spec fn enc_width(mcs: nat, j: nat) -> nat
    decreases j,
{
    if j <= 1 {
        mcs + 1
    } else {
        let w = enc_width(mcs, (j - 1) as nat);
        if pow2u(mcs) + 1 + j == pow2u(w) && w < 12 { w + 1 } else { w }
    }
}

/// Code `k` of the stream for `codes`: the clear code, then `codes`, then the end code.
pub open spec fn enc_code(codes: Seq<nat>, mcs: nat, k: int) -> nat {
    if k == 0 {
        pow2u(mcs)
    } else if k <= codes.len() {
        codes[k - 1]
    } else {
        pow2u(mcs) + 1
    }
}

/// The width of code `k` of the stream (the clear code first).
pub open spec fn enc_code_width(mcs: nat, k: int) -> nat {
    if k <= 0 { mcs + 1 } else { enc_width(mcs, (k - 1) as nat) }
}

/// The bit at which code `k` of the stream starts.
pub open spec fn enc_pos(mcs: nat, k: nat) -> nat
    decreases k,
{
    if k == 0 { 0 } else { enc_pos(mcs, (k - 1) as nat) + enc_code_width(mcs, k - 1) }
}

/// Codes `k` and after of the stream, packed LSB first into one number.
pub open spec fn enc_pack(codes: Seq<nat>, mcs: nat, k: nat) -> nat
    decreases codes.len() + 2 - k,
{
    if k >= codes.len() + 2 {
        0
    } else {
        enc_code(codes, mcs, k as int) + vstd::arithmetic::power2::pow2(enc_code_width(mcs, k as int))
            * enc_pack(codes, mcs, k + 1)
    }
}

/// The bytes of the stream for `codes`: the clear code, `codes` and the end code, each as
/// wide as `enc_width` says, packed LSB first and cut into bytes.
pub open spec fn enc_stream(codes: Seq<nat>, mcs: nat) -> Seq<u8> {
    let v = enc_pack(codes, mcs, 0);
    let nbits = enc_pos(mcs, codes.len() + 2);
    Seq::new((nbits + 7) / 8, |i: int| (v / vstd::arithmetic::power2::pow2((8 * i) as nat) % 256) as u8)
}

/// One root code per pixel.
pub open spec fn root_codes(px: Seq<u8>) -> Seq<nat> {
    Seq::new(px.len(), |i: int| px[i] as nat)
}

/// Every code fits its width.
pub open spec fn codes_fit(codes: Seq<nat>, mcs: nat) -> bool {
    forall|t: int| 0 <= t < codes.len() ==> #[trigger] codes[t] < pow2u(enc_width(mcs, t as nat))
}

proof fn lemma_pow2u_is_pow2(n: nat)
    ensures
        pow2u(n) == vstd::arithmetic::power2::pow2(n),
    decreases n,
{
    if n > 0 {
        lemma_pow2u_is_pow2((n - 1) as nat);
        vstd::arithmetic::power2::lemma_pow2_unfold(n);
    } else {
        vstd::arithmetic::power2::lemma_pow2(0);
        assert(vstd::arithmetic::power::pow(2, 0) == 1) by {
            reveal(vstd::arithmetic::power::pow);
        }
    }
}

proof fn lemma_pow2u_grows(a: nat, b: nat)
    requires
        a < b,
    ensures
        pow2u(a) < pow2u(b),
{
    lemma_pow2u_is_pow2(a);
    lemma_pow2u_is_pow2(b);
    vstd::arithmetic::power2::lemma_pow2_strictly_increases(a, b);
}

proof fn lemma_enc_width_range(mcs: nat, j: nat)
    requires
        mcs <= 11,
    ensures
        mcs + 1 <= enc_width(mcs, j) <= 12,
    decreases j,
{
    if j > 1 {
        lemma_enc_width_range(mcs, (j - 1) as nat);
    }
}

proof fn lemma_enc_width_room(mcs: nat, j: nat)
    requires
        2 <= mcs <= 11,
        pow2u(mcs) + 1 + j < 4096,
    ensures
        pow2u(mcs) + 1 + j < pow2u(enc_width(mcs, j)),
    decreases j,
{
    assert(pow2u(mcs + 1) == 2 * pow2u(mcs));
    assert(pow2u(2) == 4) by {
            lemma_pow2u_is_pow2(2);
            vstd::arithmetic::power2::lemma2_to64();
        }
    if mcs > 2 {
        lemma_pow2u_grows(2, mcs);
    }
    if j > 1 {
        lemma_enc_width_room(mcs, (j - 1) as nat);
        lemma_enc_width_range(mcs, (j - 1) as nat);
        let w = enc_width(mcs, (j - 1) as nat);
        assert(pow2u(w + 1) == 2 * pow2u(w));
        assert(pow2u(12) == 4096) by {
            lemma_pow2u_is_pow2(12);
            vstd::arithmetic::power2::lemma2_to64();
        }
    }
}

proof fn lemma_root_codes_fit(px: Seq<u8>, mcs: nat)
    requires
        2 <= mcs <= 11,
        forall|i: int| 0 <= i < px.len() ==> (#[trigger] px[i] as nat) < pow2u(mcs),
    ensures
        codes_fit(root_codes(px), mcs),
{
    assert forall|t: int| 0 <= t < root_codes(px).len() implies #[trigger] root_codes(px)[t] < pow2u(enc_width(mcs, t as nat)) by {
        lemma_enc_width_range(mcs, t as nat);
        lemma_pow2u_grows(mcs, enc_width(mcs, t as nat));
        assert((px[t] as nat) < pow2u(mcs));
    }
}

proof fn lemma_enc_code_fits(codes: Seq<nat>, mcs: nat, k: int)
    requires
        2 <= mcs <= 11,
        0 <= k <= codes.len() + 1,
        codes_fit(codes, mcs),
    ensures
        enc_code(codes, mcs, k) < vstd::arithmetic::power2::pow2(enc_code_width(mcs, k)),
{
    let w = enc_code_width(mcs, k);
    if k > 0 {
        lemma_enc_width_range(mcs, (k - 1) as nat);
    }
    lemma_pow2u_is_pow2(w);
    assert(pow2u(mcs + 1) == 2 * pow2u(mcs));
    lemma_pow2u_grows(1, mcs);
    assert(pow2u(1) == 2) by {
            lemma_pow2u_is_pow2(1);
            vstd::arithmetic::power2::lemma2_to64();
        }
    if w > mcs + 1 {
        lemma_pow2u_grows(mcs + 1, w);
    }
    if k >= 1 && k <= codes.len() {
        assert(codes[k - 1] < pow2u(enc_width(mcs, (k - 1) as nat)));
    }
}

proof fn lemma_enc_pack_bound(codes: Seq<nat>, mcs: nat, k: nat)
    requires
        2 <= mcs <= 11,
        k <= codes.len() + 2,
        codes_fit(codes, mcs),
    ensures
        enc_pos(mcs, k) <= enc_pos(mcs, codes.len() + 2),
        enc_pack(codes, mcs, k) < vstd::arithmetic::power2::pow2((enc_pos(mcs, codes.len() + 2) - enc_pos(mcs, k)) as nat),
    decreases codes.len() + 2 - k,
{
    let top = enc_pos(mcs, codes.len() + 2);
    if k == codes.len() + 2 {
        vstd::arithmetic::power2::lemma_pow2_pos(0);
        lemma_pow2u_is_pow2(0);
    } else {
        lemma_enc_pack_bound(codes, mcs, k + 1);
        lemma_enc_code_fits(codes, mcs, k as int);
        let w = enc_code_width(mcs, k as int);
        let r = (top - enc_pos(mcs, k + 1)) as nat;
        let p = vstd::arithmetic::power2::pow2(w);
        let q = vstd::arithmetic::power2::pow2(r);
        let c = enc_code(codes, mcs, k as int);
        let rest = enc_pack(codes, mcs, k + 1);
        assert(enc_pos(mcs, k + 1) == enc_pos(mcs, k) + w);
        vstd::arithmetic::power2::lemma_pow2_adds(w, r);
        assert((top - enc_pos(mcs, k)) as nat == w + r);
        assert(c + p * rest < p * q) by (nonlinear_arith)
            requires
                c < p,
                rest < q,
                0 <= rest,
        ;
    }
}

proof fn lemma_enc_pack_shift(codes: Seq<nat>, mcs: nat, k: nat)
    requires
        2 <= mcs <= 11,
        k <= codes.len() + 2,
        codes_fit(codes, mcs),
    ensures
        enc_pack(codes, mcs, 0) / vstd::arithmetic::power2::pow2(enc_pos(mcs, k)) == enc_pack(codes, mcs, k),
    decreases k,
{
    if k == 0 {
        lemma_pow2u_is_pow2(0);
        let v = enc_pack(codes, mcs, 0) as int;
        assert(v / 1 == v);
    } else {
        let j = (k - 1) as nat;
        lemma_enc_pack_shift(codes, mcs, j);
        lemma_enc_code_fits(codes, mcs, j as int);
        let w = enc_code_width(mcs, j as int);
        let a = vstd::arithmetic::power2::pow2(enc_pos(mcs, j));
        let p = vstd::arithmetic::power2::pow2(w);
        vstd::arithmetic::power2::lemma_pow2_pos(enc_pos(mcs, j));
        vstd::arithmetic::power2::lemma_pow2_pos(w);
        vstd::arithmetic::power2::lemma_pow2_adds(enc_pos(mcs, j), w);
        vstd::arithmetic::div_mod::lemma_div_denominator(enc_pack(codes, mcs, 0) as int, a as int, p as int);
        assert(j + 1 == k);
        assert(enc_pack(codes, mcs, j) == enc_code(codes, mcs, j as int) + p * enc_pack(codes, mcs, k));
        assert(enc_pos(mcs, k) == enc_pos(mcs, j) + w);
        vstd::arithmetic::mul::lemma_mul_is_commutative(p as int, enc_pack(codes, mcs, k) as int);
        vstd::arithmetic::div_mod::lemma_fundamental_div_mod_converse(
            enc_pack(codes, mcs, j) as int,
            p as int,
            enc_pack(codes, mcs, k) as int,
            enc_code(codes, mcs, j as int) as int,
        );
        assert(vstd::arithmetic::power2::pow2(enc_pos(mcs, k)) == a * p);
        assert(enc_pack(codes, mcs, 0) / (a * p) == enc_pack(codes, mcs, j) / p);
    }
}

proof fn lemma_stream_byte(data: Seq<u8>, v: nat, i: int)
    requires
        0 <= i,
        v < vstd::arithmetic::power2::pow2(8 * data.len()),
        forall|t: int| 0 <= t < data.len() ==> (#[trigger] data[t] as nat) == v / vstd::arithmetic::power2::pow2((8 * t) as nat) % 256,
    ensures
        (if i < data.len() { data[i] as nat } else { 0 }) == v / vstd::arithmetic::power2::pow2((8 * i) as nat) % 256,
{
    if i >= data.len() {
        let e = (8 * i) as nat;
        if e > 8 * data.len() {
            vstd::arithmetic::power2::lemma_pow2_strictly_increases(8 * data.len(), e);
        }
        vstd::arithmetic::div_mod::lemma_basic_div(v as int, vstd::arithmetic::power2::pow2(e) as int);
    }
}

proof fn lemma_three_bytes(q: nat)
    ensures
        q % 256 + 256 * (q / 256 % 256) + 65536 * (q / 65536 % 256) == q % vstd::arithmetic::power2::pow2(24),
{
    vstd::arithmetic::power2::lemma2_to64();
    vstd::arithmetic::div_mod::lemma_mod_breakdown(q as int, 256, 65536);
    vstd::arithmetic::div_mod::lemma_mod_breakdown(q as int / 256, 256, 256);
    vstd::arithmetic::div_mod::lemma_div_denominator(q as int, 256, 256);
    vstd::arithmetic::div_mod::lemma_div_pos_is_pos(q as int, 256);
}

proof fn lemma_u32_window(chunk: u32, s: u32, w: nat)
    requires
        s < 8,
        1 <= w <= 16,
    ensures
        ((chunk >> s) & (((1u32 << (w as u32)) - 1) as u32)) as nat
            == chunk as nat / vstd::arithmetic::power2::pow2(s as nat) % vstd::arithmetic::power2::pow2(w),
{
    let wu = w as u32;
    vstd::bits::lemma_u32_shr_is_div(chunk, s);
    vstd::bits::lemma_u32_pow2_no_overflow(w);
    vstd::bits::lemma_u32_shl_is_mul(1u32, wu);
    let x: u32 = chunk >> s;
    vstd::bits::lemma_u32_low_bits_mask_is_mod(x, w);
    assert(((1u32 << wu) - 1) as u32 == vstd::bits::low_bits_mask(w) as u32);
}

proof fn lemma_mod_window(q: nat, s: nat, w: nat)
    requires
        s + w <= 24,
    ensures
        q % vstd::arithmetic::power2::pow2(24) / vstd::arithmetic::power2::pow2(s) % vstd::arithmetic::power2::pow2(w)
            == q / vstd::arithmetic::power2::pow2(s) % vstd::arithmetic::power2::pow2(w),
{
    let ps = vstd::arithmetic::power2::pow2(s) as int;
    let pr = vstd::arithmetic::power2::pow2((24 - s) as nat) as int;
    let pw = vstd::arithmetic::power2::pow2(w) as int;
    let pz = vstd::arithmetic::power2::pow2((24 - s - w) as nat) as int;
    vstd::arithmetic::power2::lemma_pow2_pos(s);
    vstd::arithmetic::power2::lemma_pow2_pos((24 - s) as nat);
    vstd::arithmetic::power2::lemma_pow2_pos(w);
    vstd::arithmetic::power2::lemma_pow2_pos((24 - s - w) as nat);
    vstd::arithmetic::power2::lemma_pow2_adds(s, (24 - s) as nat);
    vstd::arithmetic::power2::lemma_pow2_adds(w, (24 - s - w) as nat);
    assert(s + (24 - s) as nat == 24);
    assert(w + (24 - s - w) as nat == (24 - s) as nat);
    let qi = q as int;
    vstd::arithmetic::div_mod::lemma_mod_breakdown(qi, ps, pr);
    vstd::arithmetic::div_mod::lemma_mod_pos_bound(qi, ps);
    vstd::arithmetic::div_mod::lemma_div_pos_is_pos(qi, ps);
    vstd::arithmetic::div_mod::lemma_mod_pos_bound(qi / ps, pr);
    vstd::arithmetic::mul::lemma_mul_is_commutative(ps, (qi / ps) % pr);
    vstd::arithmetic::div_mod::lemma_fundamental_div_mod_converse(qi % (ps * pr), ps, (qi / ps) % pr, qi % ps);
    vstd::arithmetic::div_mod::lemma_mod_mod(qi / ps, pw, pz);
}

proof fn lemma_stream_code(data: Seq<u8>, v: nat, pos: nat, w: nat)
    requires
        1 <= w <= 16,
        v < vstd::arithmetic::power2::pow2(8 * data.len()),
        forall|t: int| 0 <= t < data.len() ==> (#[trigger] data[t] as nat) == v / vstd::arithmetic::power2::pow2((8 * t) as nat) % 256,
    ensures
        lzw_code(data, pos as int, w) == v / vstd::arithmetic::power2::pow2(pos) % vstd::arithmetic::power2::pow2(w),
{
    let byte = (pos / 8) as int;
    let s = pos % 8;
    let bb = (8 * byte) as nat;
    let q = v / vstd::arithmetic::power2::pow2(bb);
    vstd::arithmetic::power2::lemma2_to64();
    lemma_stream_byte(data, v, byte);
    lemma_stream_byte(data, v, byte + 1);
    lemma_stream_byte(data, v, byte + 2);
    vstd::arithmetic::power2::lemma_pow2_pos(bb);
    vstd::arithmetic::power2::lemma_pow2_adds(bb, 8);
    vstd::arithmetic::power2::lemma_pow2_adds(bb, 16);
    vstd::arithmetic::power2::lemma_pow2_adds(bb, s);
    assert((8 * (byte + 1)) as nat == bb + 8);
    assert((8 * (byte + 2)) as nat == bb + 16);
    assert(bb + s == pos);
    vstd::arithmetic::div_mod::lemma_div_denominator(v as int, vstd::arithmetic::power2::pow2(bb) as int, 256);
    vstd::arithmetic::div_mod::lemma_div_denominator(v as int, vstd::arithmetic::power2::pow2(bb) as int, 65536);
    vstd::arithmetic::div_mod::lemma_div_denominator(v as int, vstd::arithmetic::power2::pow2(bb) as int, vstd::arithmetic::power2::pow2(s) as int);
    lemma_three_bytes(q);
    let b0: u32 = if byte < data.len() { data[byte] as u32 } else { 0 };
    let b1: u32 = if byte + 1 < data.len() { data[byte + 1] as u32 } else { 0 };
    let b2: u32 = if data.len() - byte > 2 { data[byte + 2] as u32 } else { 0 };
    assert(b0 < 256 && b1 < 256 && b2 < 256);
    let chunk: u32 = b0 | (b1 << 8u32) | (b2 << 16u32);
    assert(chunk == b0 + 256 * b1 + 65536 * b2) by (bit_vector)
        requires
            b0 < 256,
            b1 < 256,
            b2 < 256,
            chunk == b0 | (b1 << 8u32) | (b2 << 16u32),
    ;
    assert(chunk as nat == q % vstd::arithmetic::power2::pow2(24));
    lemma_u32_window(chunk, s as u32, w);
    lemma_mod_window(q, s, w);
}


proof fn lemma_enc_code_at(codes: Seq<nat>, mcs: nat, k: nat)
    requires
        2 <= mcs <= 11,
        k <= codes.len() + 1,
        codes_fit(codes, mcs),
    ensures
        lzw_code(enc_stream(codes, mcs), enc_pos(mcs, k) as int, enc_code_width(mcs, k as int)) == enc_code(codes, mcs, k as int),
        enc_pos(mcs, k) + enc_code_width(mcs, k as int) <= enc_stream(codes, mcs).len() * 8,
        enc_pos(mcs, k + 1) == enc_pos(mcs, k) + enc_code_width(mcs, k as int),
        1 <= enc_code_width(mcs, k as int) <= 12,
{
    let data = enc_stream(codes, mcs);
    let v = enc_pack(codes, mcs, 0);
    let nbits = enc_pos(mcs, codes.len() + 2);
    let w = enc_code_width(mcs, k as int);
    if k > 0 {
        lemma_enc_width_range(mcs, (k - 1) as nat);
    }
    lemma_enc_pack_bound(codes, mcs, 0);
    lemma_enc_pack_bound(codes, mcs, k + 1);
    assert(enc_pos(mcs, k + 1) == enc_pos(mcs, k) + w);
    assert(data.len() == (nbits + 7) / 8);
    assert(nbits <= 8 * data.len());
    if nbits < 8 * data.len() {
        vstd::arithmetic::power2::lemma_pow2_strictly_increases(nbits, 8 * data.len());
    }
    assert(v < vstd::arithmetic::power2::pow2(8 * data.len()));
    assert forall|t: int| 0 <= t < data.len() implies (#[trigger] data[t] as nat) == v / vstd::arithmetic::power2::pow2((8 * t) as nat) % 256 by {
        assert(data[t] == (v / vstd::arithmetic::power2::pow2((8 * t) as nat) % 256) as u8);
    }
    lemma_stream_code(data, v, enc_pos(mcs, k), w);
    lemma_enc_pack_shift(codes, mcs, k);
    lemma_enc_code_fits(codes, mcs, k as int);
    let p = vstd::arithmetic::power2::pow2(w);
    assert(enc_pack(codes, mcs, k) == enc_code(codes, mcs, k as int) + p * enc_pack(codes, mcs, k + 1));
    vstd::arithmetic::mul::lemma_mul_is_commutative(p as int, enc_pack(codes, mcs, k + 1) as int);
    vstd::arithmetic::div_mod::lemma_fundamental_div_mod_converse(
        enc_pack(codes, mcs, k) as int,
        p as int,
        enc_pack(codes, mcs, k + 1) as int,
        enc_code(codes, mcs, k as int) as int,
    );
}

/// The root codes of `px`, then (when `i > 0`) the table code `2^mcs + 1 + i`.
pub open spec fn roots_then_entry(px: Seq<u8>, mcs: nat, i: int) -> Seq<nat> {
    if i == 0 { root_codes(px) } else { root_codes(px).push((pow2u(mcs) + 1 + i) as nat) }
}

/// What `roots_then_entry(px, mcs, i)` stands for: the pixels, then (when `i > 0`) the
/// table entry that the `i`-th code after the first made: pixel `i - 1` followed by the
/// first byte of pixel `i`'s string, that is pixel `i`, or pixel `i - 1` again when the
/// entry is the one the code itself defines.
pub open spec fn roots_then_entry_out(px: Seq<u8>, i: int) -> Seq<u8> {
    if i == 0 {
        px
    } else if i < px.len() {
        px + seq![px[i - 1], px[i]]
    } else {
        px + seq![px[i - 1], px[i - 1]]
    }
}

proof fn lemma_roots_then_entry_fit(px: Seq<u8>, mcs: nat, i: int)
    requires
        2 <= mcs <= 11,
        forall|t: int| 0 <= t < px.len() ==> (#[trigger] px[t] as nat) < pow2u(mcs),
        0 <= i <= px.len(),
        i > 0 ==> pow2u(mcs) + 1 + px.len() < 4096,
    ensures
        codes_fit(roots_then_entry(px, mcs, i), mcs),
{
    lemma_root_codes_fit(px, mcs);
    if i > 0 {
        let codes = roots_then_entry(px, mcs, i);
        lemma_enc_width_room(mcs, px.len());
        assert forall|t: int| 0 <= t < codes.len() implies #[trigger] codes[t] < pow2u(enc_width(mcs, t as nat)) by {
            if t < px.len() {
                assert(codes[t] == root_codes(px)[t]);
            }
        }
    }
}

proof fn lemma_enc_run(px: Seq<u8>, mcs: nat, i: int, j: nat, dic: Seq<Seq<u8>>)
    requires
        2 <= mcs <= 11,
        forall|t: int| 0 <= t < px.len() ==> (#[trigger] px[t] as nat) < pow2u(mcs),
        0 <= i <= px.len(),
        i > 0 ==> pow2u(mcs) + 1 + px.len() < 4096,
        j <= px.len(),
        dic.len() == pow2u(mcs) + 2 + (if j == 0 { 0 } else { j - 1 }),
        forall|c: int| 0 <= c < pow2u(mcs) ==> #[trigger] dic[c] == seq![c as u8],
        forall|t: int| 1 <= t < j ==> #[trigger] dic[pow2u(mcs) + 1 + t] == seq![px[t - 1], px[t]],
    ensures
        lzw_run(enc_stream(roots_then_entry(px, mcs, i), mcs), mcs, LzwState {
            dic: dic,
            cs: enc_width(mcs, j),
            prev: if j == 0 { None } else { Some(seq![px[j - 1]]) },
            bitpos: enc_pos(mcs, j + 1) as int,
            out: px.take(j as int),
        }) == roots_then_entry_out(px, i),
    decreases px.len() - j,
{
    let codes = roots_then_entry(px, mcs, i);
    let data = enc_stream(codes, mcs);
    let clear = pow2u(mcs);
    let n = px.len();
    lemma_roots_then_entry_fit(px, mcs, i);
    let st = LzwState {
        dic: dic,
        cs: enc_width(mcs, j),
        prev: if j == 0 { None } else { Some(seq![px[j - 1]]) },
        bitpos: enc_pos(mcs, j + 1) as int,
        out: px.take(j as int),
    };
    lemma_enc_code_at(codes, mcs, j + 1);
    assert(enc_code_width(mcs, (j + 1) as int) == enc_width(mcs, j));
    let code = lzw_code(data, st.bitpos, st.cs);
    assert(code == enc_code(codes, mcs, (j + 1) as int));
    let bp = st.bitpos + st.cs;
    assert(bp == enc_pos(mcs, j + 2));
    if j < n {
        assert(codes[j as int] == root_codes(px)[j as int]);
        assert(code == px[j as int] as nat);
        assert(code < clear);
        let e = seq![px[j as int]];
        assert(dic[code as int] == e);
        let dic2 = if j == 0 { dic } else { dic.push(seq![px[j - 1]].push(e[0])) };
        let cs2 = if j == 0 {
            st.cs
        } else if dic2.len() == pow2u(st.cs) && st.cs < 12 {
            st.cs + 1
        } else {
            st.cs
        };
        assert(cs2 == enc_width(mcs, j + 1));
        assert(st.out + e =~= px.take((j + 1) as int));
        assert forall|c: int| 0 <= c < clear implies #[trigger] dic2[c] == seq![c as u8] by {
            assert(dic2[c] == dic[c]);
        }
        assert forall|t: int| 1 <= t < j + 1 implies #[trigger] dic2[clear + 1 + t] == seq![px[t - 1], px[t]] by {
            if t < j {
                assert(dic2[clear + 1 + t] == dic[clear + 1 + t]);
            } else {
                assert(seq![px[j - 1]].push(e[0]) =~= seq![px[t - 1], px[t]]);
            }
        }
        lemma_enc_run(px, mcs, i, j + 1, dic2);
        assert(lzw_run(data, mcs, st) == lzw_run(data, mcs, LzwState { dic: dic2, cs: cs2, prev: Some(e), bitpos: bp, out: st.out + e }));
    } else if i == 0 {
        assert(px.take(j as int) =~= px);
    } else {
        assert(codes[n as int] == clear + 1 + i);
        assert(code == clear + 1 + i);
        assert(n >= 1);
        let p = seq![px[n - 1]];
        let e = if i < n { dic[code as int] } else { p.push(p[0]) };
        if i < n {
            assert(dic[clear + 1 + i] == seq![px[i - 1], px[i]]);
        }
        let d2 = dic.push(p.push(e[0]));
        let cs2 = if d2.len() == pow2u(st.cs) && st.cs < 12 { st.cs + 1 } else { st.cs };
        assert(cs2 == enc_width(mcs, j + 1));
        let st2 = LzwState { dic: d2, cs: cs2, prev: Some(e), bitpos: bp, out: st.out + e };
        assert(lzw_run(data, mcs, st) == lzw_run(data, mcs, st2));
        lemma_enc_code_at(codes, mcs, j + 2);
        assert(enc_code_width(mcs, (j + 2) as int) == cs2);
        assert(lzw_code(data, st2.bitpos, st2.cs) == clear + 1);
        assert(px.take(j as int) =~= px);
        assert(st2.out =~= roots_then_entry_out(px, i));
    }
}

/// The decoder reads back what a GIF encoder writes: a clear code, one root code per
/// pixel, then the end code, each code as wide as the encoder's table then needs (one bit
/// more each time the next free code reaches a power of two, up to 12 bits), packed LSB
/// first, decode to exactly those pixels.
pub proof fn lzw_round_trip(px: Seq<u8>, mcs: nat)
    requires
        2 <= mcs <= 11,
        forall|t: int| 0 <= t < px.len() ==> (#[trigger] px[t] as nat) < pow2u(mcs),
    ensures
        spec_lzw(enc_stream(root_codes(px), mcs), mcs) == px,
{
    lzw_reads_table_entries(px, mcs, 0);
}

/// Each code after the first adds to the table the previous string plus the first byte of
/// the current one, at the next free code: after the root codes of `px`, the code
/// `2^mcs + 1 + i` (for `1 <= i < px.len()`) decodes to pixels `i - 1` and `i`, and the
/// code being defined (`i == px.len()`) to the last pixel twice.
pub proof fn lzw_reads_table_entries(px: Seq<u8>, mcs: nat, i: int)
    requires
        2 <= mcs <= 11,
        forall|t: int| 0 <= t < px.len() ==> (#[trigger] px[t] as nat) < pow2u(mcs),
        0 <= i <= px.len(),
        i > 0 ==> pow2u(mcs) + 1 + px.len() < 4096,
    ensures
        spec_lzw(enc_stream(roots_then_entry(px, mcs, i), mcs), mcs) == roots_then_entry_out(px, i),
{
    let codes = roots_then_entry(px, mcs, i);
    let clear = pow2u(mcs);
    lemma_roots_then_entry_fit(px, mcs, i);
    lemma_enc_code_at(codes, mcs, 0);
    assert(enc_pos(mcs, 0) == 0);
    assert(enc_pos(mcs, 1) == mcs + 1);
    assert(px.take(0) =~= Seq::<u8>::empty());
    let d = fresh_dic(clear);
    assert forall|c: int| 0 <= c < clear implies #[trigger] d[c] == seq![c as u8] by {}
    lemma_enc_run(px, mcs, i, 0, d);
}

} // verus!
