//! The conversion specifications of C format strings.
use vstd::prelude::*;

verus! {

/// The byte classes of a conversion specification: 0 flags, 1 width or precision
/// digits (or `*`), 2 length modifiers.
pub open spec fn in_class(c: u8, k: int) -> bool {
    if k == 0 {
        c == 0x2D || c == 0x2B || c == 0x20 || c == 0x23 || c == 0x30
    } else if k == 1 {
        (0x30 <= c <= 0x39) || c == 0x2A
    } else {
        c == 0x68 || c == 0x6C || c == 0x4C
    }
}

/// Whether `c` is a conversion character (`diouxXeEfgGcsp%`).
pub open spec fn is_conv(c: u8) -> bool {
    c == 0x64 || c == 0x69 || c == 0x6F || c == 0x75 || c == 0x78 || c == 0x58 || c == 0x65 || c == 0x45
        || c == 0x66 || c == 0x67 || c == 0x47 || c == 0x63 || c == 0x73 || c == 0x70 || c == 0x25
}

/// The first position from `i` on whose byte is not of class `k`.
pub open spec fn skip_class(f: Seq<u8>, i: int, k: int) -> int
    decreases f.len() - i,
{
    if 0 <= i < f.len() && in_class(f[i], k) { skip_class(f, i + 1, k) } else { i }
}

/// The conversion specification at `at` of a format string: `%`, flags, a width, a
/// precision (a `.` followed by at least one digit or `*`), length modifiers and a
/// conversion character. Gives the conversion character and the specification's
/// length, or `None` when there is none at `at`.
pub open spec fn spec_match_spec(f: Seq<u8>, at: int) -> Option<(u8, int)> {
    if !(0 <= at < f.len() && f[at] == 0x25) {
        None
    } else {
        let i2 = skip_class(f, skip_class(f, at + 1, 0), 1);
        let dot = 0 <= i2 < f.len() && f[i2] == 0x2E;
        let j = skip_class(f, i2 + 1, 1);
        if dot && j == i2 + 1 {
            None
        } else {
            let i4 = skip_class(f, if dot { j } else { i2 }, 2);
            if 0 <= i4 < f.len() && is_conv(f[i4]) { Some((f[i4], i4 + 1 - at)) } else { None }
        }
    }
}

fn class_of(c: u8, k: u8) -> (r: bool)
    ensures
        r == in_class(c, k as int),
{
    if k == 0 {
        c == 0x2D || c == 0x2B || c == 0x20 || c == 0x23 || c == 0x30
    } else if k == 1 {
        (0x30 <= c && c <= 0x39) || c == 0x2A
    } else {
        c == 0x68 || c == 0x6C || c == 0x4C
    }
}

fn skip(f: &[u8], i: usize, k: u8) -> (r: usize)
    requires
        i <= f.len(),
    ensures
        r == skip_class(f@, i as int, k as int),
        i <= r <= f.len(),
{
    let mut j = i;
    while j < f.len() && class_of(f[j], k)
        invariant
            i <= j <= f.len(),
            skip_class(f@, i as int, k as int) == skip_class(f@, j as int, k as int),
        decreases f.len() - j,
    {
        j = j + 1;
    }
    j
}

/// The conversion specification at `at` of a format string (see `spec_match_spec`).
pub fn match_spec(f: &[u8], at: usize) -> (r: Option<(u8, usize)>)
    ensures
        match r {
            Some((c, n)) => spec_match_spec(f@, at as int) == Some((c, n as int)),
            None => spec_match_spec(f@, at as int) is None,
        },
{
    if !(at < f.len() && f[at] == 0x25) {
        return None;
    }
    let i1 = skip(f, at + 1, 0);
    let i2 = skip(f, i1, 1);
    let dot = i2 < f.len() && f[i2] == 0x2E;
    let mut i3 = i2;
    if dot {
        let j = skip(f, i2 + 1, 1);
        if j == i2 + 1 {
            return None;
        }
        i3 = j;
    }
    let i4 = skip(f, i3, 2);
    if i4 < f.len() {
        let c = f[i4];
        if c == 0x64 || c == 0x69 || c == 0x6F || c == 0x75 || c == 0x78 || c == 0x58 || c == 0x65 || c == 0x45
            || c == 0x66 || c == 0x67 || c == 0x47 || c == 0x63 || c == 0x73 || c == 0x70 || c == 0x25 {
            return Some((c, i4 + 1 - at));
        }
    }
    None
}


proof fn lemma_skip(f: Seq<u8>, i: int, k: int)
    requires
        0 <= i,
    ensures
        i <= skip_class(f, i, k),
        i <= f.len() ==> skip_class(f, i, k) <= f.len(),
    decreases f.len() - i,
{
    if 0 <= i < f.len() && in_class(f[i], k) {
        lemma_skip(f, i + 1, k);
    }
}

/// A conversion specification is at least two bytes long, lies within the string,
/// starts with `%` and ends with its conversion character.
pub proof fn lemma_match_len(f: Seq<u8>, at: int)
    ensures
        spec_match_spec(f, at) matches Some((c, l)) ==> 2 <= l && at + l <= f.len(),
        spec_match_spec(f, at) matches Some((c, l)) ==> f[at] == 0x25 && is_conv(c) && f[at + l - 1] == c,
{
    if 0 <= at < f.len() && f[at] == 0x25 {
        lemma_skip(f, at + 1, 0);
        let i1 = skip_class(f, at + 1, 0);
        lemma_skip(f, i1, 1);
        let i2 = skip_class(f, i1, 1);
        lemma_skip(f, i2 + 1, 1);
        let j = skip_class(f, i2 + 1, 1);
        let dot = 0 <= i2 < f.len() && f[i2] == 0x2E;
        lemma_skip(f, if dot { j } else { i2 }, 2);
    }
}

proof fn lemma_skip_at(f: Seq<u8>, i: int, k: int, t: int)
    requires
        0 <= i <= t < skip_class(f, i, k),
    ensures
        0 <= t < f.len() && in_class(f[t], k),
    decreases t - i,
{
    if !(0 <= i < f.len() && in_class(f[i], k)) {
        assert(skip_class(f, i, k) == i);
    } else if t > i {
        lemma_skip_at(f, i + 1, k, t);
    }
}

/// The grammar of a conversion specification: `%`, then flags `-+ #0`, a width of
/// digits or `*`, optionally `.` and at least one digit or `*`, length modifiers
/// `hlL`, and a conversion character; every byte between `%` and the conversion
/// character is of one of those kinds, and a `.` that no digit follows gives none.
pub proof fn conversion_grammar(f: Seq<u8>, at: int)
    ensures
        spec_match_spec(f, at) matches Some((c, l)) ==> {
            &&& f[at] == 0x25 && is_conv(c) && f[at + l - 1] == c
            &&& forall|t: int| at < t < at + l - 1 ==>
                in_class(#[trigger] f[t], 0) || in_class(f[t], 1) || f[t] == 0x2E || in_class(f[t], 2)
        },
        (0 <= at && at + 2 < f.len() && f[at] == 0x25 && f[at + 1] == 0x2E && !in_class(f[at + 2], 1)) ==> spec_match_spec(f, at) is None,
{
    lemma_match_len(f, at);
    if 0 <= at < f.len() && f[at] == 0x25 {
        lemma_skip(f, at + 1, 0);
        let i1 = skip_class(f, at + 1, 0);
        lemma_skip(f, i1, 1);
        let i2 = skip_class(f, i1, 1);
        lemma_skip(f, i2 + 1, 1);
        let j = skip_class(f, i2 + 1, 1);
        let dot = 0 <= i2 < f.len() && f[i2] == 0x2E;
        let i3 = if dot { j } else { i2 };
        lemma_skip(f, i3, 2);
        if let Some((c, l)) = spec_match_spec(f, at) {
            let i4 = skip_class(f, i3, 2);
            assert(at + l - 1 == i4);
            assert forall|t: int| at < t < at + l - 1 implies
                in_class(#[trigger] f[t], 0) || in_class(f[t], 1) || f[t] == 0x2E || in_class(f[t], 2) by {
                if t < i1 {
                    lemma_skip_at(f, at + 1, 0, t);
                } else if t < i2 {
                    lemma_skip_at(f, i1, 1, t);
                } else if dot && t == i2 {
                } else if dot && t < j {
                    lemma_skip_at(f, i2 + 1, 1, t);
                } else {
                    lemma_skip_at(f, i3, 2, t);
                }
            }
        }
        if f.len() > at + 2 && f[at + 1] == 0x2E && !in_class(f[at + 2], 1) {
            assert(!in_class(f[at + 1], 0));
            assert(i1 == at + 1);
            assert(!in_class(f[at + 1], 1));
            assert(i2 == at + 1);
            assert(j == i2 + 1);
        }
    }
}

// ---------------------------------------------------------------------------
// Formatting

/// The ASCII digit for `d` (lower- or upper-case letters from ten on).
pub open spec fn digit(d: nat, upper: bool) -> u8 {
    (if d < 10 { 48 + d } else if upper { 55 + d } else { 87 + d }) as u8
}

/// `n` written in base `b` (most significant digit first, no leading zeros, `0` for 0).
pub open spec fn digits(n: nat, b: nat, upper: bool) -> Seq<u8>
    decreases n,
{
    if b < 2 {
        Seq::empty()
    } else if n < b {
        seq![digit(n, upper)]
    } else {
        proof {
            vstd::arithmetic::div_mod::lemma_div_decreases(n as int, b as int);
        }
        digits(n / b, b, upper).push(digit(n % b, upper))
    }
}

/// `"<null>"`.
pub open spec fn null_text() -> Seq<u8> {
    seq![0x3Cu8, 0x6E, 0x75, 0x6C, 0x6C, 0x3E]
}

/// What one conversion `c` prints for the argument `a`, `s` being the string at `a`:
/// `s` the string (`<null>` when empty); `d` signed decimal; `i` and `u` unsigned
/// decimal; `x`, `X` hexadecimal; `o` octal; `c` the low byte; `p` `0x` and eight
/// hexadecimal digits; any other (floating point) `<f>`.
pub open spec fn conv_text(c: u8, a: u32, s: Seq<u8>) -> Seq<u8> {
    if c == 0x73 {
        if s.len() == 0 { null_text() } else { s }
    } else if c == 0x64 {
        if a >= 0x8000_0000 { seq![0x2Du8] + digits((0x1_0000_0000 - a) as nat, 10, false) } else { digits(a as nat, 10, false) }
    } else if c == 0x69 || c == 0x75 {
        digits(a as nat, 10, false)
    } else if c == 0x78 {
        digits(a as nat, 16, false)
    } else if c == 0x58 {
        digits(a as nat, 16, true)
    } else if c == 0x6F {
        digits(a as nat, 8, false)
    } else if c == 0x63 {
        seq![(a % 256) as u8]
    } else if c == 0x70 {
        let h = digits(a as nat, 16, false);
        seq![0x30u8, 0x78] + Seq::new((8 - h.len()) as nat, |i: int| 0x30u8) + h
    } else {
        seq![0x3Cu8, 0x66, 0x3E]
    }
}

/// The `k`-th argument, 0 when there is none.
pub open spec fn arg_at(args: Seq<u32>, k: int) -> u32 {
    if 0 <= k < args.len() { args[k] } else { 0 }
}

/// The string at the `k`-th argument, empty when there is none.
pub open spec fn str_at(strs: Seq<Seq<u8>>, k: int) -> Seq<u8> {
    if 0 <= k < strs.len() { strs[k] } else { Seq::empty() }
}

/// The output of a format string from byte `i` on, the next argument being the
/// `k`-th: a conversion specification prints its conversion (`%%` a percent sign,
/// which takes no argument), any other byte stands for itself.
pub open spec fn spec_format(f: Seq<u8>, i: int, args: Seq<u32>, strs: Seq<Seq<u8>>, k: int) -> Seq<u8>
    decreases f.len() - i,
{
    if i < 0 || i >= f.len() {
        Seq::empty()
    } else {
        proof {
            lemma_match_len(f, i);
        }
        match spec_match_spec(f, i) {
            None => seq![f[i]] + spec_format(f, i + 1, args, strs, k),
            Some((c, l)) => if c == 0x25 {
                seq![0x25u8] + spec_format(f, i + l, args, strs, k)
            } else {
                conv_text(c, arg_at(args, k), str_at(strs, k)) + spec_format(f, i + l, args, strs, k + 1)
            },
        }
    }
}

/// The conversions of a format string from byte `i` on that take an argument, in order.
pub open spec fn arg_convs(f: Seq<u8>, i: int) -> Seq<u8>
    decreases f.len() - i,
{
    if i < 0 || i >= f.len() {
        Seq::empty()
    } else {
        proof {
            lemma_match_len(f, i);
        }
        match spec_match_spec(f, i) {
            None => arg_convs(f, i + 1),
            Some((c, l)) => if c == 0x25 { arg_convs(f, i + l) } else { seq![c] + arg_convs(f, i + l) },
        }
    }
}

fn push_digits(out: &mut Vec<u8>, n: u64, b: u64, upper: bool)
    requires
        2 <= b <= 16,
    ensures
        final(out)@ == old(out)@ + digits(n as nat, b as nat, upper),
    decreases n,
{
    let ghost o0 = out@;
    if n >= b {
        proof {
            vstd::arithmetic::div_mod::lemma_div_decreases(n as int, b as int);
        }
        push_digits(out, n / b, b, upper);
    }
    let d = n % b;
    let c: u8 = if d < 10 { 48 + d as u8 } else if upper { 55 + d as u8 } else { 87 + d as u8 };
    assert(c == digit(d as nat, upper));
    out.push(c);
    if n >= b {
        assert(digits(n as nat, b as nat, upper) == digits((n / b) as nat, b as nat, upper).push(c));
        assert(out@ =~= o0 + digits(n as nat, b as nat, upper));
    } else {
        proof { vstd::arithmetic::div_mod::lemma_small_mod(n as nat, b as nat); }
        assert(out@ =~= o0 + digits(n as nat, b as nat, upper));
    }
}

fn digits_of(n: u64, b: u64, upper: bool) -> (r: Vec<u8>)
    requires
        2 <= b <= 16,
    ensures
        r@ == digits(n as nat, b as nat, upper),
{
    let mut r: Vec<u8> = Vec::new();
    push_digits(&mut r, n, b, upper);
    assert(r@ =~= digits(n as nat, b as nat, upper));
    r
}

/// `b` to the power `w`.
pub open spec fn pw(b: nat, w: nat) -> nat
    decreases w,
{
    if w == 0 { 1 } else { b * pw(b, (w - 1) as nat) }
}

/// A number below `b` to the power `w` has at most `w` digits in base `b`.
pub proof fn lemma_digits_len(n: nat, b: nat, upper: bool, w: nat)
    requires
        b >= 2,
        n < pw(b, w),
        w >= 1,
    ensures
        1 <= digits(n, b, upper).len() <= w,
    decreases n,
{
    if n >= b {
        let m1 = pw(b, (w - 1) as nat);
        assert(w >= 2) by {
            reveal_with_fuel(pw, 2);
        }
        vstd::arithmetic::div_mod::lemma_div_decreases(n as int, b as int);
        assert(n / b < m1) by (nonlinear_arith)
            requires
                n < b * m1,
                b >= 2,
        ;
        lemma_digits_len(n / b, b, upper, (w - 1) as nat);
    }
}

/// What one conversion prints (see `conv_text`).
fn conv_out(out: &mut Vec<u8>, c: u8, a: u32, s: &Vec<u8>)
    ensures
        final(out)@ == old(out)@ + conv_text(c, a, s@),
{
    let ghost o0 = out@;
    if c == 0x73 {
        if s.len() == 0 {
            out.push(0x3C);
            out.push(0x6E);
            out.push(0x75);
            out.push(0x6C);
            out.push(0x6C);
            out.push(0x3E);
            assert(out@ =~= o0 + null_text());
        } else {
            let mut t = vstd::slice::slice_to_vec(s.as_slice());
            out.append(&mut t);
        }
    } else if c == 0x64 {
        if a >= 0x8000_0000 {
            out.push(0x2D);
            let mut t = digits_of((0x1_0000_0000u64 - a as u64), 10, false);
            out.append(&mut t);
            assert(out@ =~= o0 + (seq![0x2Du8] + digits((0x1_0000_0000 - a) as nat, 10, false)));
        } else {
            let mut t = digits_of(a as u64, 10, false);
            out.append(&mut t);
        }
    } else if c == 0x69 || c == 0x75 {
        let mut t = digits_of(a as u64, 10, false);
        out.append(&mut t);
    } else if c == 0x78 {
        let mut t = digits_of(a as u64, 16, false);
        out.append(&mut t);
    } else if c == 0x58 {
        let mut t = digits_of(a as u64, 16, true);
        out.append(&mut t);
    } else if c == 0x6F {
        let mut t = digits_of(a as u64, 8, false);
        out.append(&mut t);
    } else if c == 0x63 {
        out.push((a % 256) as u8);
        assert(out@ =~= o0 + seq![(a % 256) as u8]);
    } else if c == 0x70 {
        let mut h = digits_of(a as u64, 16, false);
        proof {
            reveal_with_fuel(pw, 9);
            assert(pw(16, 8) == 0x1_0000_0000);
            lemma_digits_len(a as nat, 16, false, 8);
        }
        out.push(0x30);
        out.push(0x78);
        let ghost o1 = out@;
        let mut z: usize = h.len();
        while z < 8
            invariant
                h.len() <= z <= 8,
                out@ == o1 + Seq::new((z - h.len()) as nat, |i: int| 0x30u8),
            decreases 8 - z,
        {
            out.push(0x30);
            z = z + 1;
            assert(out@ =~= o1 + Seq::new((z - h.len()) as nat, |i: int| 0x30u8));
        }
        let ghost hv = h@;
        out.append(&mut h);
        assert(out@ =~= o0 + (seq![0x30u8, 0x78] + Seq::new((8 - hv.len()) as nat, |i: int| 0x30u8) + hv));
    } else {
        out.push(0x3C);
        out.push(0x66);
        out.push(0x3E);
        assert(out@ =~= o0 + seq![0x3Cu8, 0x66, 0x3E]);
    }
}

/// The conversions of a format string that take an argument, in order (see
/// `arg_convs`): how many arguments the output needs, and which are strings.
pub fn printf_convs(f: &[u8]) -> (r: Vec<u8>)
    ensures
        r@ == arg_convs(f@, 0),
{
    let ghost target = arg_convs(f@, 0);
    let mut r: Vec<u8> = Vec::new();
    let mut i: usize = 0;
    while i < f.len()
        invariant
            i <= f.len(),
            target == arg_convs(f@, 0),
            target == r@ + arg_convs(f@, i as int),
        decreases f.len() - i,
    {
        proof {
            lemma_match_len(f@, i as int);
        }
        match match_spec(f, i) {
            None => {
                i = i + 1;
            },
            Some((c, l)) => {
                if c != 0x25 {
                    let ghost r0 = r@;
                    r.push(c);
                    assert(r0 + (seq![c] + arg_convs(f@, i + l)) =~= r@ + arg_convs(f@, i + l));
                }
                i = i + l;
            },
        }
    }
    assert(r@ =~= target);
    r
}

/// The output of a format string (see `spec_format`): `args` are the arguments in
/// order and `strs[k]` the zero-terminated string that argument `k` points to
/// (used by `%s`); missing arguments count as 0 and missing strings as empty.
pub fn vm_printf(f: &[u8], args: &Vec<u32>, strs: &Vec<Vec<u8>>) -> (r: Vec<u8>)
    ensures
        r@ == spec_format(f@, 0, args@, strs_view(strs@), 0),
{
    let ghost sv = strs_view(strs@);
    let ghost target = spec_format(f@, 0, args@, sv, 0);
    let mut out: Vec<u8> = Vec::new();
    let mut i: usize = 0;
    let mut k: usize = 0;
    let empty: Vec<u8> = Vec::new();
    while i < f.len()
        invariant
            i <= f.len(),
            k <= i,
            sv == strs_view(strs@),
            target == spec_format(f@, 0, args@, sv, 0),
            target == out@ + spec_format(f@, i as int, args@, sv, k as int),
            empty@.len() == 0,
        decreases f.len() - i,
    {
        proof {
            lemma_match_len(f@, i as int);
        }
        let ghost o0 = out@;
        match match_spec(f, i) {
            None => {
                out.push(f[i]);
                assert(o0 + (seq![f@[i as int]] + spec_format(f@, i + 1, args@, sv, k as int))
                    =~= out@ + spec_format(f@, i + 1, args@, sv, k as int));
                i = i + 1;
            },
            Some((c, l)) => {
                if c == 0x25 {
                    out.push(0x25);
                    assert(o0 + (seq![0x25u8] + spec_format(f@, i + l, args@, sv, k as int))
                        =~= out@ + spec_format(f@, i + l, args@, sv, k as int));
                } else {
                    let a: u32 = if k < args.len() { args[k] } else { 0 };
                    let s: &Vec<u8> = if k < strs.len() { &strs[k] } else { &empty };
                    assert(s@ == str_at(sv, k as int));
                    conv_out(&mut out, c, a, s);
                    assert(o0 + (conv_text(c, a, s@) + spec_format(f@, i + l, args@, sv, k + 1))
                        =~= out@ + spec_format(f@, i + l, args@, sv, k + 1));
                    k = k + 1;
                }
                i = i + l;
            },
        }
    }
    assert(out@ =~= target);
    out
}

/// The mathematical value of a list of byte strings.
pub open spec fn strs_view(s: Seq<Vec<u8>>) -> Seq<Seq<u8>> {
    s.map_values(|v: Vec<u8>| v@)
}

} // verus!
