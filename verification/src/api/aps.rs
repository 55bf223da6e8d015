//! The app store's security code: the C library's random generator and the record
//! kept in non-volatile memory.
use vstd::prelude::*;
use crate::api::printf::{digits, pw};

verus! {

/// One step of the C library's linear congruential generator, kept to 31 bits.
pub open spec fn spec_next_rand(st: u32) -> u32 {
    ((1103515245 * st + 12345) % 0x8000_0000) as u32
}

/// One step of the random generator (see `spec_next_rand`).
pub fn next_rand(st: u32) -> (r: u32)
    ensures
        r == spec_next_rand(st),
{
    assert(1103515245 * (st as int) <= 1103515245 * 0xFFFF_FFFF) by (nonlinear_arith);
    ((1103515245u64 * st as u64 + 12345) % 0x8000_0000) as u32
}

/// The number of nonzero bytes from `i` on, up to the first zero byte.
pub open spec fn nonzero_run(r: Seq<u8>, i: int) -> int
    decreases r.len() - i,
{
    if i < 0 || i >= r.len() || r[i] == 0 { 0 } else { 1 + nonzero_run(r, i + 1) }
}

/// Whether a stored record is usable: it starts with 0xE9 and at least eight
/// nonzero bytes follow.
pub open spec fn record_ok(r: Seq<u8>) -> bool {
    r.len() > 0 && r[0] == 0xE9 && nonzero_run(r, 1) >= 8
}

/// `st` as eight upper-case hexadecimal digits.
pub open spec fn hex8(st: u32) -> Seq<u8> {
    let h = digits(st as nat, 16, true);
    Seq::new((8 - h.len()) as nat, |i: int| 0x30u8) + h
}

/// `r` with `im` and a zero byte written at `at`.
pub open spec fn put_id(r: Seq<u8>, at: int, im: Seq<u8>) -> Seq<u8> {
    r.subrange(0, at) + im + seq![0u8] + r.subrange(at + im.len() + 1, r.len() as int)
}

/// A new record of 45 bytes: 0xE9, the random state in hexadecimal, then `1`s with the
/// device id (its first 16 bytes), zero-terminated, at 9 and at 26; two zero bytes end it.
pub open spec fn fresh_record(st: u32, imei: Seq<u8>) -> Seq<u8> {
    let im = if imei.len() > 16 { imei.take(16) } else { imei };
    let base = seq![0xE9u8] + hex8(st) + Seq::new(34, |i: int| 0x31u8) + seq![0u8, 0u8];
    put_id(put_id(base, 9, im), 26, im)
}

/// What asking for the security code gives when the output buffer is there and holds
/// at least 43 bytes: the new random state, the 42 code bytes (the record without its
/// first byte and its last two), and the record to store when the stored one was
/// missing or unusable.
pub open spec fn spec_security_code(st: u32, stored: Option<Seq<u8>>, imei: Seq<u8>) -> (u32, Seq<u8>, Option<Seq<u8>>) {
    let st2 = spec_next_rand(st);
    match stored {
        Some(r) if record_ok(r) => (st2, r.subrange(1, 43), None),
        _ => {
            let r = fresh_record(st2, imei);
            (st2, r.subrange(1, 43), Some(r))
        },
    }
}

fn record_usable(r: &[u8]) -> (b: bool)
    ensures
        b == record_ok(r@),
{
    if r.len() == 0 || r[0] != 0xE9 {
        return false;
    }
    let mut i: usize = 1;
    let mut k: usize = 0;
    while i < r.len() && r[i] != 0 && k < 8
        invariant
            1 <= i <= r.len(),
            k == i - 1,
            k <= 8,
            nonzero_run(r@, 1) == k + nonzero_run(r@, i as int),
        decreases r.len() - i,
    {
        i = i + 1;
        k = k + 1;
    }
    proof {
        lemma_run_nonneg(r@, i as int);
    }
    k >= 8
}

proof fn lemma_run_nonneg(r: Seq<u8>, i: int)
    ensures
        nonzero_run(r, i) >= 0,
    decreases r.len() - i,
{
    if !(i < 0 || i >= r.len() || r[i] == 0) {
        lemma_run_nonneg(r, i + 1);
    }
}

fn push_hex_digits(out: &mut Vec<u8>, n: u32)
    ensures
        final(out)@ == old(out)@ + digits(n as nat, 16, true),
    decreases n,
{
    let ghost o0 = out@;
    if n >= 16 {
        proof {
            vstd::arithmetic::div_mod::lemma_div_decreases(n as int, 16);
        }
        push_hex_digits(out, n / 16);
    }
    let d = (n % 16) as u8;
    let c: u8 = if d < 10 { 48 + d } else { 55 + d };
    out.push(c);
    if n >= 16 {
        assert(out@ =~= o0 + digits(n as nat, 16, true));
    } else {
        assert(out@ =~= o0 + digits(n as nat, 16, true));
    }
}

proof fn lemma_hex8_len(st: u32)
    ensures
        hex8(st).len() == 8,
        digits(st as nat, 16, true).len() <= 8,
{
    reveal_with_fuel(pw, 9);
    assert(pw(16, 8) == 0x1_0000_0000);
    crate::api::printf::lemma_digits_len(st as nat, 16, true, 8);
}

fn write_id(r: &mut Vec<u8>, at: usize, im: &[u8])
    requires
        at + im.len() + 1 <= old(r)@.len(),
    ensures
        final(r)@ == put_id(old(r)@, at as int, im@),
{
    let ghost r0 = r@;
    let l = r.len();
    let mut i: usize = 0;
    while i < im.len()
        invariant
            i <= im.len(),
            l == r0.len(),
            at + im.len() + 1 <= r0.len(),
            r@.len() == r0.len(),
            forall|j: int| 0 <= j < r0.len() ==> #[trigger] r@[j] == (if at <= j < at + i { im@[j - at] } else { r0[j] }),
        decreases im.len() - i,
    {
        r.set(at + i, im[i]);
        i = i + 1;
    }
    r.set(at + im.len(), 0);
    assert(r@ =~= put_id(r0, at as int, im@));
}

fn new_record(st: u32, imei: &[u8]) -> (r: Vec<u8>)
    ensures
        r@ == fresh_record(st, imei@),
        r@.len() == 45,
{
    let mut h: Vec<u8> = Vec::new();
    push_hex_digits(&mut h, st);
    proof {
        lemma_hex8_len(st);
    }
    let mut r: Vec<u8> = Vec::new();
    r.push(0xE9);
    let mut z: usize = h.len();
    while z < 8
        invariant
            h.len() <= z <= 8,
            r@ == seq![0xE9u8] + Seq::new((z - h.len()) as nat, |i: int| 0x30u8),
        decreases 8 - z,
    {
        r.push(0x30);
        z = z + 1;
        assert(r@ =~= seq![0xE9u8] + Seq::new((z - h.len()) as nat, |i: int| 0x30u8));
    }
    let ghost hv = h@;
    r.append(&mut h);
    assert(r@ =~= seq![0xE9u8] + hex8(st));
    let mut k: usize = 0;
    while k < 34
        invariant
            k <= 34,
            r@ == seq![0xE9u8] + hex8(st) + Seq::new(k as nat, |i: int| 0x31u8),
            hex8(st).len() == 8,
        decreases 34 - k,
    {
        r.push(0x31);
        k = k + 1;
        assert(r@ =~= seq![0xE9u8] + hex8(st) + Seq::new(k as nat, |i: int| 0x31u8));
    }
    r.push(0);
    r.push(0);
    let ghost base = seq![0xE9u8] + hex8(st) + Seq::new(34, |i: int| 0x31u8) + seq![0u8, 0u8];
    assert(r@ =~= base);
    let n = if imei.len() > 16 { 16 } else { imei.len() };
    let im = slice_prefix(imei, n);
    assert(im@ == (if imei@.len() > 16 { imei@.take(16) } else { imei@ }));
    write_id(&mut r, 9, im);
    write_id(&mut r, 26, im);
    r
}

fn slice_prefix(a: &[u8], n: usize) -> (r: &[u8])
    requires
        n <= a@.len(),
    ensures
        r@ == a@.take(n as int),
{
    let r = &a[0..n];
    assert(r@ =~= a@.take(n as int));
    r
}

fn code_bytes(r: &[u8]) -> (c: Vec<u8>)
    requires
        r@.len() >= 43,
    ensures
        c@ == r@.subrange(1, 43),
{
    let c = vstd::slice::slice_to_vec(&r[1..43]);
    c
}

/// Ask for the security code (see `spec_security_code`): `None` (no code, state
/// unchanged) when the output buffer is null or shorter than 43 bytes. `stored` is
/// the record read from non-volatile memory, when there is one.
pub fn aps_security_code(out_null: bool, n: u32, st: u32, stored: Option<&[u8]>, imei: &[u8]) -> (r: Option<(u32, Vec<u8>, Option<Vec<u8>>)>)
    requires
        stored matches Some(s) ==> s@.len() >= 43,
    ensures
        (out_null || n < 0x2B) ==> r is None,
        !(out_null || n < 0x2B) ==> (r matches Some((st2, code, rec)) && spec_security_code(
            st,
            match stored { Some(s) => Some(s@), None => None },
            imei@,
        ) == (st2, code@, match rec { Some(v) => Some(v@), None => None })),
{
    if out_null || n < 0x2B {
        return None;
    }
    let st2 = next_rand(st);
    match stored {
        Some(s) => {
            if record_usable(s) {
                return Some((st2, code_bytes(s), None));
            }
        },
        None => {},
    }
    let rec = new_record(st2, imei);
    let code = code_bytes(rec.as_slice());
    Some((st2, code, Some(rec)))
}

} // verus!
