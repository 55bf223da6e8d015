use vstd::prelude::*;

verus! {

/// Append `m` bytes to `out`, each copied from `dist` bytes back (an LZ back-reference;
/// the copy may overlap the bytes it produces).
pub open spec fn copy_back(out: Seq<u8>, dist: nat, m: nat) -> Seq<u8>
    decreases m,
{
    if m == 0 {
        out
    } else {
        copy_back(out.push(out[out.len() - dist]), dist, (m - 1) as nat)
    }
}

pub open spec fn min_int(a: int, b: int) -> int {
    if a <= b { a } else { b }
}

/// The decoder state machine: `out` has been produced and `src[i..]` is left to read.
/// A byte with the high bit set starts a literal run of `c & 0x7F` bytes; otherwise the
/// byte and the next one form a back-reference of length `c >> 1` and distance
/// `((c & 1) << 8) | next`.  Decoding stops at the end of the input, once `out_size`
/// bytes are produced, or at a reference that is truncated or reaches before the output.
pub open spec fn lz_from(src: Seq<u8>, out_size: nat, i: int, out: Seq<u8>) -> Seq<u8>
    decreases src.len() - i,
{
    if i < 0 || i >= src.len() || out.len() >= out_size {
        out
    } else {
        let c = src[i];
        if c & 0x80 != 0 {
            let k = (c & 0x7F) as int;
            let lit = src.subrange(i + 1, min_int(i + 1 + k, src.len() as int));
            lz_from(src, out_size, min_int(i + 1 + k, src.len() as int), out + lit)
        } else if i + 1 >= src.len() {
            out
        } else {
            let k = (c >> 1) as int;
            let dist = ((c & 1) as int) * 256 + src[i + 1] as int;
            if dist == 0 || dist > out.len() {
                out
            } else {
                lz_from(
                    src,
                    out_size,
                    i + 2,
                    copy_back(out, dist as nat, min_int(k, out_size - out.len()) as nat),
                )
            }
        }
    }
}

/// What `decompress` produces from `src` with the given output budget.
pub open spec fn spec_decompress(src: Seq<u8>, out_size: nat) -> Seq<u8> {
    lz_from(src, out_size, 0, Seq::empty())
}

/// Big-endian u32 from four bytes.
pub open spec fn be32(b0: u8, b1: u8, b2: u8, b3: u8) -> int {
    (b0 as u32) * 0x100_0000 + (b1 as u32) * 0x1_0000 + (b2 as u32) * 0x100 + b3 as u32
}

/// What `unpack_entry` returns: entries of type 2 carry a 9-byte header
/// (type, compressed size, uncompressed size, both big-endian) before the LZ stream.
pub open spec fn spec_unpack_entry(d: Seq<u8>) -> Option<Seq<u8>> {
    if d.len() < 9 || d[0] != 2 {
        None
    } else {
        let comp = be32(d[1], d[2], d[3], d[4]) as int;
        let unc = be32(d[5], d[6], d[7], d[8]) as nat;
        let end = min_int(9 + comp, d.len() as int);
        Some(spec_decompress(d.subrange(9, end), unc))
    }
}

proof fn lemma_copy_back_len(out: Seq<u8>, dist: nat, m: nat)
    ensures
        copy_back(out, dist, m).len() == out.len() + m,
        copy_back(out, dist, m).subrange(0, out.len() as int) == out,
    decreases m,
{
    if m > 0 {
        lemma_copy_back_len(out.push(out[out.len() - dist]), dist, (m - 1) as nat);
        assert(copy_back(out, dist, m).subrange(0, out.len() as int) =~= out);
    }
}

/// `a` is the start of `b`.
pub open spec fn starts(a: Seq<u8>, b: Seq<u8>) -> bool {
    a.len() <= b.len() && b.subrange(0, a.len() as int) == a
}

proof fn lemma_starts_trans(a: Seq<u8>, b: Seq<u8>, c: Seq<u8>)
    requires
        starts(a, b),
        starts(b, c),
    ensures
        starts(a, c),
{
    assert(c.subrange(0, a.len() as int) =~= c.subrange(0, b.len() as int).subrange(0, a.len() as int));
}

proof fn lemma_copy_back_split(out: Seq<u8>, dist: nat, a: nat, c: nat)
    ensures
        copy_back(out, dist, a + c) == copy_back(copy_back(out, dist, a), dist, c),
    decreases a,
{
    if a > 0 {
        lemma_copy_back_split(out.push(out[out.len() - dist]), dist, (a - 1) as nat, c);
        assert((a + c - 1) as nat == ((a - 1) + c) as nat);
    }
}

proof fn lemma_lz_extends(src: Seq<u8>, n: nat, i: int, out: Seq<u8>)
    ensures
        starts(out, lz_from(src, n, i, out)),
    decreases src.len() - i,
{
    assert(out.subrange(0, out.len() as int) =~= out);
    if !(i < 0 || i >= src.len() || out.len() >= n) {
        let c = src[i];
        if c & 0x80 != 0 {
            let k = (c & 0x7F) as int;
            let j = min_int(i + 1 + k, src.len() as int);
            let o2 = out + src.subrange(i + 1, j);
            lemma_lz_extends(src, n, j, o2);
            assert(o2.subrange(0, out.len() as int) =~= out);
            lemma_starts_trans(out, o2, lz_from(src, n, j, o2));
        } else if i + 1 < src.len() {
            let k = (c >> 1) as int;
            let dist = ((c & 1) as int) * 256 + src[i + 1] as int;
            if !(dist == 0 || dist > out.len()) {
                let o2 = copy_back(out, dist as nat, min_int(k, n - out.len()) as nat);
                lemma_copy_back_len(out, dist as nat, min_int(k, n - out.len()) as nat);
                lemma_lz_extends(src, n, i + 2, o2);
                lemma_starts_trans(out, o2, lz_from(src, n, i + 2, o2));
            }
        }
    }
}

proof fn lemma_lz_prefix(src: Seq<u8>, n: nat, m: nat, i: int, out: Seq<u8>)
    requires
        n <= m,
    ensures
        starts(lz_from(src, n, i, out), lz_from(src, m, i, out)),
        lz_from(src, n, i, out).len() <= (if out.len() > n + 126 { out.len() as int } else { n + 126int }),
    decreases src.len() - i,
{
    assert(out.subrange(0, out.len() as int) =~= out);
    if i < 0 || i >= src.len() || out.len() >= n {
        lemma_lz_extends(src, m, i, out);
    } else {
        let c = src[i];
        if c & 0x80 != 0 {
            let k = (c & 0x7F) as int;
            assert(c & 0x7F <= 127) by (bit_vector);
            let j = min_int(i + 1 + k, src.len() as int);
            lemma_lz_prefix(src, n, m, j, out + src.subrange(i + 1, j));
        } else if i + 1 < src.len() {
            let k = (c >> 1) as int;
            let dist = ((c & 1) as int) * 256 + src[i + 1] as int;
            if !(dist == 0 || dist > out.len()) {
                let a = min_int(k, n - out.len());
                let b = min_int(k, m - out.len());
                let o1 = copy_back(out, dist as nat, a as nat);
                let o2 = copy_back(out, dist as nat, b as nat);
                lemma_copy_back_len(out, dist as nat, a as nat);
                if a == b {
                    lemma_lz_prefix(src, n, m, i + 2, o1);
                } else {
                    assert(o1.len() == n);
                    assert(lz_from(src, n, i + 2, o1) == o1);
                    assert(lz_from(src, n, i, out) == o1);
                    assert(lz_from(src, m, i, out) == lz_from(src, m, i + 2, o2));
                    lemma_copy_back_split(out, dist as nat, a as nat, (b - a) as nat);
                    lemma_copy_back_len(o1, dist as nat, (b - a) as nat);
                    lemma_lz_extends(src, m, i + 2, o2);
                    lemma_starts_trans(o1, o2, lz_from(src, m, i + 2, o2));
                }
            }
        }
    }
}

/// The output budget only cuts the output short: with a smaller budget the output
/// is the start of the output with a larger one, with no budget it is empty, and
/// only a final literal run (at most 127 bytes) can go past the budget.
pub proof fn decompress_prefix(src: Seq<u8>, n: nat, m: nat)
    requires
        n <= m,
    ensures
        starts(spec_decompress(src, n), spec_decompress(src, m)),
        spec_decompress(src, 0) == Seq::<u8>::empty(),
        spec_decompress(src, n).len() <= n + 126,
{
    lemma_lz_prefix(src, n, m, 0, Seq::empty());
}

/// Decode the module's LZ byte stream, producing at most `out_size` bytes from
/// back-references (a literal run is always copied whole).
pub fn decompress(src: &[u8], out_size: usize) -> (out: Vec<u8>)
    ensures
        out@ == spec_decompress(src@, out_size as nat),
{
    let mut out: Vec<u8> = Vec::new();
    let mut i: usize = 0;
    let n = src.len();
    loop
        invariant_except_break
            n == src@.len(),
            i <= n,
            lz_from(src@, out_size as nat, i as int, out@) == spec_decompress(src@, out_size as nat),
        ensures
            out@ == spec_decompress(src@, out_size as nat),
        decreases n - i,
    {
        if !(i < n && out.len() < out_size) {
            break;
        }
        let c = src[i];
        if c & 0x80 != 0 {
            let k = (c & 0x7F) as usize;
            i = i + 1;
            let end = if k <= n - i { i + k } else { n };
            let ghost before = out@;
            let mut j = i;
            while j < end
                invariant
                    i <= j <= end <= n,
                    n == src@.len(),
                    out@ == before + src@.subrange(i as int, j as int),
                decreases end - j,
            {
                out.push(src[j]);
                proof {
                    assert(src@.subrange(i as int, j + 1) =~= src@.subrange(i as int, j as int).push(src@[j as int]));
                }
                j = j + 1;
            }
            i = if k <= n - i { i + k } else { n };
        } else {
            if i + 1 >= n {
                break;
            }
            let k = (c >> 1) as usize;
            let dist = (((c & 1) as usize) * 256) + src[i + 1] as usize;
            assert(((c & 1) as int) * 256 + src@[i + 1] as int == dist);
            i = i + 2;
            if dist == 0 || dist > out.len() {
                break;
            }
            let m = if k <= out_size - out.len() { k } else { out_size - out.len() };
            let ghost before = out@;
            let mut t: usize = 0;
            while t < m
                invariant
                    t <= m,
                    0 < dist <= before.len(),
                    copy_back(out@, dist as nat, (m - t) as nat) == copy_back(before, dist as nat, m as nat),
                    out@.len() == before.len() + t,
                decreases m - t,
            {
                let b = out[out.len() - dist];
                out.push(b);
                t = t + 1;
            }
        }
    }
    out
}

/// Unpack a type-2 resource entry (header plus LZ stream); `None` for any other entry.
pub fn unpack_entry(data: &[u8]) -> (r: Option<Vec<u8>>)
    ensures
        r matches Some(v) ==> spec_unpack_entry(data@) == Some(v@),
        r is None ==> spec_unpack_entry(data@) is None,
{
    if data.len() < 9 || data[0] != 2 {
        return None;
    }
    let comp = be_u32(data[1], data[2], data[3], data[4]) as usize;
    let unc = be_u32(data[5], data[6], data[7], data[8]) as usize;
    let end = if comp <= data.len() - 9 { 9 + comp } else { data.len() };
    Some(decompress(&data[9..end], unc))
}

/// Big-endian u32 from four bytes.
pub fn be_u32(b0: u8, b1: u8, b2: u8, b3: u8) -> (r: u32)
    ensures
        r == be32(b0, b1, b2, b3),
{
    (b0 as u32) * 0x100_0000 + (b1 as u32) * 0x1_0000 + (b2 as u32) * 0x100 + b3 as u32
}

} // verus!

verus! {

proof fn lemma_copy_back_repeats(out: Seq<u8>, dist: nat, m: nat)
    requires
        1 <= dist <= out.len(),
    ensures
        forall|j: int| 0 <= j < m ==> #[trigger] copy_back(out, dist, m)[out.len() + j] == copy_back(out, dist, m)[out.len() + j - dist],
    decreases m,
{
    lemma_copy_back_len(out, dist, m);
    if m > 0 {
        let o1 = out.push(out[out.len() - dist]);
        lemma_copy_back_repeats(o1, dist, (m - 1) as nat);
        lemma_copy_back_len(o1, dist, (m - 1) as nat);
        let cb = copy_back(out, dist, m);
        assert(cb == copy_back(o1, dist, (m - 1) as nat));
        assert forall|j: int| 0 <= j < m implies #[trigger] cb[out.len() + j] == cb[out.len() + j - dist] by {
            if j == 0 {
                assert(cb.subrange(0, o1.len() as int) == o1);
                assert(cb[out.len() as int] == o1[out.len() as int]);
                assert(cb[out.len() - dist] == o1[out.len() - dist]);
            } else {
                assert(cb[o1.len() + (j - 1)] == cb[o1.len() + (j - 1) - dist]);
            }
        }
    }
}

/// A back-reference copies from the output: a control byte `c` below 0x80 followed
/// by a byte `n` appends `c >> 1` bytes (as far as the budget allows), each equal to
/// the byte `(c & 1) * 256 + n` places before it, and decoding goes on after them.
pub proof fn backref_copies(src: Seq<u8>, out_size: nat, i: int, out: Seq<u8>)
    requires
        0 <= i,
        i + 1 < src.len(),
        src[i] < 0x80,
        out.len() < out_size,
        1 <= (src[i] % 2) * 256 + src[i + 1] <= out.len(),
    ensures
        ({
            let d = (src[i] % 2) * 256 + src[i + 1];
            let m = min_int((src[i] / 2) as int, out_size - out.len());
            let r = lz_from(src, out_size, i, out);
            &&& starts(out, r)
            &&& r.len() >= out.len() + m
            &&& forall|j: int| 0 <= j < m ==> #[trigger] r[out.len() + j] == r[out.len() + j - d]
        }),
{
    let c = src[i];
    assert(c & 0x80 == 0) by (bit_vector)
        requires
            c < 0x80,
    ;
    assert((c >> 1) as int == c / 2 && (c & 1) as int == c % 2) by (bit_vector);
    let d = (c % 2) * 256 + src[i + 1];
    let m = min_int((c / 2) as int, out_size - out.len());
    let o2 = copy_back(out, d as nat, m as nat);
    assert(lz_from(src, out_size, i, out) == lz_from(src, out_size, i + 2, o2));
    lemma_copy_back_len(out, d as nat, m as nat);
    lemma_copy_back_repeats(out, d as nat, m as nat);
    lemma_lz_extends(src, out_size, i + 2, o2);
    let r = lz_from(src, out_size, i + 2, o2);
    assert(out.subrange(0, out.len() as int) =~= out);
    assert(r.subrange(0, out.len() as int) =~= r.subrange(0, o2.len() as int).subrange(0, out.len() as int));
    assert forall|j: int| 0 <= j < m implies #[trigger] r[out.len() + j] == r[out.len() + j - d] by {
        assert(r[out.len() + j] == r.subrange(0, o2.len() as int)[out.len() + j]);
        assert(r[out.len() + j - d] == r.subrange(0, o2.len() as int)[out.len() + j - d]);
        assert(o2[out.len() + j] == o2[out.len() + j - d]);
    }
}

} // verus!
