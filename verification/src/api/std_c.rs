//! The C library's string comparisons and `atoi`, on the byte strings the program
//! passes.
use vstd::prelude::*;

verus! {

/// Three-way lexicographic order of byte strings: 0 when equal, 1 when `a` comes
/// after `b`, 0xFFFF_FFFF when before (a proper prefix comes first).
pub open spec fn lex_order(a: Seq<u8>, b: Seq<u8>) -> u32
    decreases a.len(),
{
    if a.len() == 0 && b.len() == 0 {
        0
    } else if a.len() == 0 {
        0xFFFF_FFFF
    } else if b.len() == 0 {
        1
    } else if a[0] < b[0] {
        0xFFFF_FFFF
    } else if a[0] > b[0] {
        1
    } else {
        lex_order(a.drop_first(), b.drop_first())
    }
}

/// The same order on character strings, by character code.
pub open spec fn lex_order_chars(a: Seq<char>, b: Seq<char>) -> u32
    decreases a.len(),
{
    if a.len() == 0 && b.len() == 0 {
        0
    } else if a.len() == 0 {
        0xFFFF_FFFF
    } else if b.len() == 0 {
        1
    } else if (a[0] as u32) < (b[0] as u32) {
        0xFFFF_FFFF
    } else if (a[0] as u32) > (b[0] as u32) {
        1
    } else {
        lex_order_chars(a.drop_first(), b.drop_first())
    }
}

/// The first `n` elements (all of them when there are fewer).
pub open spec fn prefix<T>(s: Seq<T>, n: usize) -> Seq<T> {
    if (n as int) < s.len() { s.take(n as int) } else { s }
}

/// The first `n` elements of a slice (all of them when there are fewer).
fn take_prefix<T>(a: &[T], n: usize) -> (r: &[T])
    ensures
        r@ == prefix(a@, n),
{
    let e = if n < a.len() { n } else { a.len() };
    let r = slice_subrange(a, 0, e);
    assert(r@ =~= prefix(a@, n));
    r
}

/// The elements `i..j` of a slice.
fn slice_subrange<T>(a: &[T], i: usize, j: usize) -> (r: &[T])
    requires
        i <= j <= a@.len(),
    ensures
        r@ == a@.subrange(i as int, j as int),
{
    &a[i..j]
}

/// Compare two byte strings (see `lex_order`).
pub fn compare_bytes(a: &[u8], b: &[u8]) -> (r: u32)
    ensures
        r == lex_order(a@, b@),
{
    let mut i: usize = 0;
    assert(a@.skip(0) =~= a@ && b@.skip(0) =~= b@);
    while i < a.len() && i < b.len()
        invariant
            i <= a.len() && i <= b.len(),
            lex_order(a@, b@) == lex_order(a@.skip(i as int), b@.skip(i as int)),
        decreases a.len() - i,
    {
        assert(a@.skip(i as int)[0] == a@[i as int] && b@.skip(i as int)[0] == b@[i as int]);
        if a[i] < b[i] {
            return 0xFFFF_FFFF;
        }
        if a[i] > b[i] {
            return 1;
        }
        assert(a@.skip(i as int).drop_first() =~= a@.skip(i + 1));
        assert(b@.skip(i as int).drop_first() =~= b@.skip(i + 1));
        i = i + 1;
    }
    if a.len() == b.len() {
        assert(a@.skip(i as int).len() == 0 && b@.skip(i as int).len() == 0);
        0
    } else if i == a.len() {
        0xFFFF_FFFF
    } else {
        1
    }
}

/// Compare two character strings by character code (see `lex_order_chars`).
pub fn compare_chars(a: &[char], b: &[char]) -> (r: u32)
    ensures
        r == lex_order_chars(a@, b@),
{
    let mut i: usize = 0;
    assert(a@.skip(0) =~= a@ && b@.skip(0) =~= b@);
    while i < a.len() && i < b.len()
        invariant
            i <= a.len() && i <= b.len(),
            lex_order_chars(a@, b@) == lex_order_chars(a@.skip(i as int), b@.skip(i as int)),
        decreases a.len() - i,
    {
        assert(a@.skip(i as int)[0] == a@[i as int] && b@.skip(i as int)[0] == b@[i as int]);
        let x = a[i] as u32;
        let y = b[i] as u32;
        if x < y {
            return 0xFFFF_FFFF;
        }
        if x > y {
            return 1;
        }
        assert(a@.skip(i as int).drop_first() =~= a@.skip(i + 1));
        assert(b@.skip(i as int).drop_first() =~= b@.skip(i + 1));
        i = i + 1;
    }
    if a.len() == b.len() {
        assert(a@.skip(i as int).len() == 0 && b@.skip(i as int).len() == 0);
        0
    } else if i == a.len() {
        0xFFFF_FFFF
    } else {
        1
    }
}

/// C's `strncmp`: the strings compared on their first `n` bytes at most.
pub fn strncmp(a: &[u8], b: &[u8], n: usize) -> (r: u32)
    ensures
        r == lex_order(prefix(a@, n), prefix(b@, n)),
{
    compare_bytes(take_prefix(a, n), take_prefix(b, n))
}

/// A byte with ASCII capitals taken to lower case.
pub open spec fn lower_byte(c: u8) -> u8 {
    if 0x41 <= c <= 0x5A { (c + 32) as u8 } else { c }
}

/// Equality up to ASCII case.
pub open spec fn same_ignoring_case(a: Seq<u8>, b: Seq<u8>) -> bool {
    a.len() == b.len() && forall|i: int| 0 <= i < a.len() ==> #[trigger] lower_byte(a[i]) == lower_byte(b[i])
}

/// Whether two byte strings are equal up to ASCII case.
fn equal_ignoring_case(a: &[u8], b: &[u8]) -> (r: bool)
    ensures
        r == same_ignoring_case(a@, b@),
{
    if a.len() != b.len() {
        return false;
    }
    let mut i: usize = 0;
    while i < a.len()
        invariant
            i <= a.len() == b.len(),
            forall|j: int| 0 <= j < i ==> #[trigger] lower_byte(a@[j]) == lower_byte(b@[j]),
        decreases a.len() - i,
    {
        let x = if 0x41 <= a[i] && a[i] <= 0x5A { a[i] + 32 } else { a[i] };
        let y = if 0x41 <= b[i] && b[i] <= 0x5A { b[i] + 32 } else { b[i] };
        if x != y {
            assert(lower_byte(a@[i as int]) != lower_byte(b@[i as int]));
            return false;
        }
        i = i + 1;
    }
    true
}

/// C's `stricmp` as the programs use it: 0 when the strings are equal up to ASCII
/// case, else 1.
pub fn stricmp(a: &[u8], b: &[u8]) -> (r: u32)
    ensures
        r == (if same_ignoring_case(a@, b@) { 0u32 } else { 1u32 }),
{
    if equal_ignoring_case(a, b) { 0 } else { 1 }
}

/// C's `strnicmp` as the programs use it: `stricmp` on the first `n` bytes at most.
pub fn strnicmp(a: &[u8], b: &[u8], n: usize) -> (r: u32)
    ensures
        r == (if same_ignoring_case(prefix(a@, n), prefix(b@, n)) { 0u32 } else { 1u32 }),
{
    stricmp(take_prefix(a, n), take_prefix(b, n))
}

/// Compare two wide strings on their first `n` characters at most (see
/// `lex_order_chars`).
pub fn ucs2_strncmp(a: &Vec<char>, b: &Vec<char>, n: usize) -> (r: u32)
    ensures
        r == lex_order_chars(prefix(a@, n), prefix(b@, n)),
{
    compare_chars(take_prefix(a.as_slice(), n), take_prefix(b.as_slice(), n))
}

// ---------------------------------------------------------------------------
// atoi

/// C white space as `u8::is_ascii_whitespace` has it: space, tab, line feed, form
/// feed, carriage return.
pub open spec fn is_ws_byte(c: u8) -> bool {
    c == 0x20 || c == 0x09 || c == 0x0A || c == 0x0C || c == 0x0D
}

/// Whether `c` is an ASCII digit.
pub open spec fn is_digit(c: u8) -> bool {
    0x30 <= c <= 0x39
}

/// The first position from `i` on that is not white space.
pub open spec fn skip_ws(s: Seq<u8>, i: int) -> int
    decreases s.len() - i,
{
    if 0 <= i < s.len() && is_ws_byte(s[i]) { skip_ws(s, i + 1) } else { i }
}

/// The end of the run of digits from `i` on.
pub open spec fn digits_end(s: Seq<u8>, i: int) -> int
    decreases s.len() - i,
{
    if 0 <= i < s.len() && is_digit(s[i]) { digits_end(s, i + 1) } else { i }
}

/// The value of a string of decimal digits.
pub open spec fn dec_value(s: Seq<u8>) -> int
    decreases s.len(),
{
    if s.len() == 0 { 0 } else { dec_value(s.drop_last()) * 10 + (s.last() - 0x30) }
}

/// What `atoi` returns for a C string: after leading white space, an optional sign
/// and decimal digits, read as a 64-bit signed number; 0 when there are no digits or
/// the number does not fit in 64 bits; the result wrapped to 32 bits.
pub open spec fn spec_atoi(s: Seq<u8>) -> u32 {
    let p = skip_ws(s, 0);
    let signed = p < s.len() && (s[p] == 0x2B || s[p] == 0x2D);
    let neg = p < s.len() && s[p] == 0x2D;
    let d0 = if signed { p + 1 } else { p };
    let e = digits_end(s, d0);
    if e == d0 {
        0
    } else {
        let v = dec_value(s.subrange(d0, e));
        let sv = if neg { -v } else { v };
        if -0x8000_0000_0000_0000 <= sv < 0x8000_0000_0000_0000 { (sv % 0x1_0000_0000) as u32 } else { 0 }
    }
}

proof fn lemma_skip_ws(s: Seq<u8>, i: int)
    requires
        0 <= i <= s.len(),
    ensures
        i <= skip_ws(s, i) <= s.len(),
    decreases s.len() - i,
{
    if i < s.len() && is_ws_byte(s[i]) {
        lemma_skip_ws(s, i + 1);
    }
}

proof fn lemma_dec_value_nonneg(s: Seq<u8>)
    requires
        forall|j: int| 0 <= j < s.len() ==> #[trigger] is_digit(s[j]),
    ensures
        dec_value(s) >= 0,
    decreases s.len(),
{
    if s.len() > 0 {
        assert forall|j: int| 0 <= j < s.drop_last().len() implies #[trigger] is_digit(s.drop_last()[j]) by {
            assert(s.drop_last()[j] == s[j]);
        }
        assert(is_digit(s[s.len() - 1]));
        lemma_dec_value_nonneg(s.drop_last());
    }
}

/// C's `atoi` on the bytes of a string (see `spec_atoi`).
pub fn atoi(s: &[u8]) -> (r: u32)
    ensures
        r == spec_atoi(s@),
{
    let n = s.len();
    let mut p: usize = 0;
    while p < n && (s[p] == 0x20 || s[p] == 0x09 || s[p] == 0x0A || s[p] == 0x0C || s[p] == 0x0D)
        invariant
            p <= n == s.len(),
            skip_ws(s@, 0) == skip_ws(s@, p as int),
        decreases n - p,
    {
        p = p + 1;
    }
    let signed = p < n && (s[p] == 0x2B || s[p] == 0x2D);
    let neg = p < n && s[p] == 0x2D;
    let d0 = if signed { p + 1 } else { p };
    // The value, held at 2^64 once it gets there.
    let big: u128 = 0x1_0000_0000_0000_0000;
    let mut acc: u128 = 0;
    let mut e: usize = d0;
    while e < n && 0x30 <= s[e] && s[e] <= 0x39
        invariant
            d0 <= e <= n == s.len(),
            big == 0x1_0000_0000_0000_0000,
            digits_end(s@, d0 as int) == digits_end(s@, e as int),
            forall|j: int| d0 <= j < e ==> #[trigger] is_digit(s@[j]),
            acc == (if dec_value(s@.subrange(d0 as int, e as int)) < big { dec_value(s@.subrange(d0 as int, e as int)) } else { big as int }),
        decreases n - e,
    {
        let ghost v0 = dec_value(s@.subrange(d0 as int, e as int));
        assert(s@.subrange(d0 as int, e + 1).drop_last() =~= s@.subrange(d0 as int, e as int));
        proof {
            lemma_dec_value_nonneg(s@.subrange(d0 as int, e as int));
        }
        let d = (s[e] - 0x30) as u128;
        if acc >= big {
            assert(v0 * 10 + d >= big) by (nonlinear_arith)
                requires
                    v0 >= big,
                    d >= 0,
            ;
        } else {
            acc = acc * 10 + d;
            if acc > big {
                acc = big;
            }
        }
        e = e + 1;
    }
    if e == d0 {
        return 0;
    }
    let ghost v = dec_value(s@.subrange(d0 as int, e as int));
    let m: u128 = 0x1_0000_0000;
    if neg {
        if acc > 0x8000_0000_0000_0000 {
            return 0;
        }
        let rm = acc % m;
        let r: u128 = if rm == 0 { 0 } else { m - rm };
        assert(r == (-v) % 0x1_0000_0000) by (nonlinear_arith)
            requires
                v == acc,
                rm == acc % m,
                m == 0x1_0000_0000,
                r == (if rm == 0 { 0 } else { m - rm }),
                acc >= 0,
        ;
        r as u32
    } else {
        if acc >= 0x8000_0000_0000_0000 {
            return 0;
        }
        (acc % m) as u32
    }
}

} // verus!
