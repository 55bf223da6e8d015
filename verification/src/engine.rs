//! The command lines a host sends to the engine: one JSON-like object per line, read
//! by looking for a known key.
use vstd::prelude::*;
use crate::session::{Touch, chars_of, is_ws, lead_ws, lemma_lead_ws, spec_trim, trim_range};
use crate::strs::string_push;

verus! {

/// A command from the host.
#[derive(Debug)]
pub enum Cmd {
    /// The keys held now.
    Keys(u32),
    /// A touch report.
    Touch(i32, i32, Touch),
    /// A soft key pressed ("left" or "right").
    Soft(String),
    /// The frame rate asked for.
    Fps(u32),
    /// Stop.
    Quit,
}

// ---------------------------------------------------------------------------
// Character sequences

/// Whether `pat` occurs in `s` at `i`.
pub open spec fn occurs_at(s: Seq<char>, pat: Seq<char>, i: int) -> bool {
    0 <= i && i + pat.len() <= s.len() && s.subrange(i, i + pat.len()) == pat
}

/// The first position from `i` on where `pat` occurs in `s`.
pub open spec fn find_from(s: Seq<char>, pat: Seq<char>, i: int) -> Option<int>
    decreases s.len() + 1 - i,
{
    if i < 0 || i + pat.len() > s.len() {
        None
    } else if occurs_at(s, pat, i) {
        Some(i)
    } else {
        find_from(s, pat, i + 1)
    }
}

/// `s` without leading white space.
pub open spec fn trim_start(s: Seq<char>) -> Seq<char> {
    s.subrange(lead_ws(s, 0), s.len() as int)
}

/// The value that follows `"key"` and a colon in a command line (white space around
/// the colon skipped): from there to the end of the line; `None` when the key is
/// missing or no colon follows it.
pub open spec fn spec_field(line: Seq<char>, key: Seq<char>) -> Option<Seq<char>> {
    match find_from(line, seq!['"'] + key + seq!['"'], 0) {
        None => None,
        Some(p) => {
            let rest = trim_start(line.subrange(p + key.len() + 2, line.len() as int));
            if rest.len() > 0 && rest[0] == ':' { Some(trim_start(rest.drop_first())) } else { None }
        },
    }
}

fn occurs(s: &Vec<char>, pat: &Vec<char>, i: usize) -> (r: bool)
    requires
        i + pat.len() <= s.len(),
    ensures
        r == occurs_at(s@, pat@, i as int),
{
    let mut k: usize = 0;
    while k < pat.len()
        invariant
            k <= pat.len(),
            i + pat.len() <= s.len(),
            forall|j: int| 0 <= j < k ==> s@[i + j] == pat@[j],
        decreases pat.len() - k,
    {
        if s[i + k] != pat[k] {
            assert(s@.subrange(i as int, i + pat.len())[k as int] != pat@[k as int]);
            return false;
        }
        k = k + 1;
    }
    assert(s@.subrange(i as int, i + pat.len()) =~= pat@);
    true
}

fn find(s: &Vec<char>, pat: &Vec<char>) -> (r: Option<usize>)
    ensures
        match r {
            Some(p) => find_from(s@, pat@, 0) == Some(p as int),
            None => find_from(s@, pat@, 0) is None,
        },
{
    let mut i: usize = 0;
    if pat.len() > s.len() {
        return None;
    }
    while i <= s.len() - pat.len()
        invariant
            pat.len() <= s.len(),
            i <= s.len() - pat.len() + 1,
            find_from(s@, pat@, 0) == find_from(s@, pat@, i as int),
        decreases s.len() + 1 - i,
    {
        if occurs(s, pat, i) {
            return Some(i);
        }
        if i == s.len() - pat.len() {
            assert(find_from(s@, pat@, i + 1) is None);
            return None;
        }
        i = i + 1;
    }
    None
}

fn skip_ws(s: &Vec<char>, i: usize) -> (r: usize)
    requires
        i <= s.len(),
    ensures
        i <= r <= s.len(),
        s@.subrange(r as int, s@.len() as int) == trim_start(s@.subrange(i as int, s@.len() as int)),
{
    let ghost t = s@.subrange(i as int, s@.len() as int);
    let mut j = i;
    while j < s.len() && (is_space(s[j]))
        invariant
            i <= j <= s.len(),
            t == s@.subrange(i as int, s@.len() as int),
            lead_ws(t, 0) == lead_ws(t, j - i),
        decreases s.len() - j,
    {
        assert(t[j - i] == s@[j as int]);
        j = j + 1;
    }
    proof {
        if j < s.len() {
            assert(t[j - i] == s@[j as int]);
        }
        lemma_lead_ws(t, j - i);
        assert(s@.subrange(j as int, s@.len() as int) =~= t.subrange(lead_ws(t, 0), t.len() as int));
    }
    j
}

fn is_space(c: char) -> (r: bool)
    ensures
        r == is_ws(c),
{
    let v = c as u32;
    (0x09 <= v && v <= 0x0D) || v == 0x20 || v == 0x85 || v == 0xA0 || v == 0x1680 || (0x2000 <= v && v <= 0x200A)
        || v == 0x2028 || v == 0x2029 || v == 0x202F || v == 0x205F || v == 0x3000
}

fn to_string(s: &Vec<char>, a: usize, b: usize) -> (r: String)
    requires
        a <= b <= s.len(),
    ensures
        r@ == s@.subrange(a as int, b as int),
{
    let mut o = String::new();
    let mut k = a;
    while k < b
        invariant
            a <= k <= b <= s.len(),
            o@ == s@.subrange(a as int, k as int),
        decreases b - k,
    {
        string_push(&mut o, s[k]);
        k = k + 1;
        assert(o@ =~= s@.subrange(a as int, k as int));
    }
    o
}

fn field_range(cs: &Vec<char>, key: &str) -> (r: Option<usize>)
    ensures
        match r {
            Some(p) => p <= cs@.len() && spec_field(cs@, key@) == Some(cs@.subrange(p as int, cs@.len() as int)),
            None => spec_field(cs@, key@) is None,
        },
{
    let kc = chars_of(key);
    let mut pat: Vec<char> = Vec::new();
    pat.push('"');
    let mut k: usize = 0;
    while k < kc.len()
        invariant
            k <= kc.len(),
            pat@ == seq!['"'] + kc@.take(k as int),
        decreases kc.len() - k,
    {
        pat.push(kc[k]);
        k = k + 1;
        assert(pat@ =~= seq!['"'] + kc@.take(k as int));
    }
    pat.push('"');
    assert(kc@.take(kc.len() as int) =~= key@);
    assert(pat@ =~= seq!['"'] + key@ + seq!['"']);
    match find(cs, &pat) {
        None => None,
        Some(p) => {
            proof {
                lemma_find_from(cs@, pat@, 0);
            }
            assert(occurs_at(cs@, pat@, p as int));
            let n = cs.len();
            let pl = pat.len();
            assert(p + pl <= n);
            let at = p + pl;
            let r1 = skip_ws(cs, at);
            if r1 < cs.len() && cs[r1] == ':' {
                let r2 = skip_ws(cs, r1 + 1);
                proof {
                    let rest = cs@.subrange(r1 as int, cs@.len() as int);
                    assert(rest.drop_first() =~= cs@.subrange(r1 + 1, cs@.len() as int));
                }
                Some(r2)
            } else {
                None
            }
        },
    }
}

proof fn lemma_find_from(s: Seq<char>, pat: Seq<char>, i: int)
    ensures
        match find_from(s, pat, i) {
            Some(p) => occurs_at(s, pat, p) && i <= p,
            None => true,
        },
    decreases s.len() + 1 - i,
{
    if !(i < 0 || i + pat.len() > s.len()) && !occurs_at(s, pat, i) {
        lemma_find_from(s, pat, i + 1);
    }
}

/// The value that follows `"key"` and a colon in a command line (see `spec_field`).
pub fn field(line: &str, key: &str) -> (r: Option<String>)
    ensures
        match r {
            Some(v) => spec_field(line@, key@) == Some(v@),
            None => spec_field(line@, key@) is None,
        },
{
    let cs = chars_of(line);
    match field_range(&cs, key) {
        Some(p) => Some(to_string(&cs, p, cs.len())),
        None => None,
    }
}

// ---------------------------------------------------------------------------
// Commands

/// The mathematical value of a command.
pub enum CmdView {
    Keys(u32),
    Touch(i32, i32, Touch),
    Soft(Seq<char>),
    Fps(u32),
    Quit,
}

/// The value of an optional command.
pub open spec fn cmd_view(c: Option<Cmd>) -> Option<CmdView> {
    match c {
        None => None,
        Some(Cmd::Keys(k)) => Some(CmdView::Keys(k)),
        Some(Cmd::Touch(x, y, t)) => Some(CmdView::Touch(x, y, t)),
        Some(Cmd::Soft(s)) => Some(CmdView::Soft(s@)),
        Some(Cmd::Fps(f)) => Some(CmdView::Fps(f)),
        Some(Cmd::Quit) => Some(CmdView::Quit),
    }
}

/// Whether `c` is an ASCII digit.
pub open spec fn is_digit(c: char) -> bool {
    '0' <= c <= '9'
}

/// The first position from `i` on that does not hold `c` (or, with `digits`, that
/// does not hold an ASCII digit).
pub open spec fn run_end(s: Seq<char>, i: int, c: char, digits: bool) -> int
    decreases s.len() - i,
{
    if 0 <= i < s.len() && (if digits { is_digit(s[i]) } else { s[i] == c }) { run_end(s, i + 1, c, digits) } else { i }
}

/// The first position from `i` on that holds `c`, if any.
pub open spec fn index_of(s: Seq<char>, i: int, c: char) -> Option<int>
    decreases s.len() - i,
{
    if i < 0 || i >= s.len() { None } else if s[i] == c { Some(i) } else { index_of(s, i + 1, c) }
}

/// The number written in decimal by the digits `d`.
pub open spec fn dec_value(d: Seq<char>) -> int
    decreases d.len(),
{
    if d.len() == 0 { 0 } else { dec_value(d.drop_last()) * 10 + (d.last() as int - 48) }
}

/// Whether all characters of `d` are ASCII digits.
pub open spec fn all_digits(d: Seq<char>) -> bool {
    forall|i: int| 0 <= i < d.len() ==> is_digit(#[trigger] d[i])
}

/// What `str::parse::<u32>` gives for digits `d`.
pub open spec fn parse_u32(d: Seq<char>) -> Option<u32> {
    if d.len() == 0 || !all_digits(d) || dec_value(d) > u32::MAX { None } else { Some(dec_value(d) as u32) }
}

/// What `str::parse::<i32>` gives: an optional sign, then at least one digit, the
/// value within range.
pub open spec fn parse_i32(t: Seq<char>) -> Option<i32> {
    let signed = t.len() > 0 && (t[0] == '-' || t[0] == '+');
    let ds = if signed { t.drop_first() } else { t };
    let v = if signed && t[0] == '-' { -dec_value(ds) } else { dec_value(ds) };
    if ds.len() == 0 || !all_digits(ds) || v < i32::MIN || v > i32::MAX { None } else { Some(v as i32) }
}

/// `s` without the quotes at either end.
pub open spec fn strip_quotes(s: Seq<char>) -> Seq<char> {
    let a = run_end(s, 0, '"', false);
    let t = s.subrange(a, s.len() as int);
    t.subrange(0, t.len() - back_run(t, t.len() as int))
}

/// How many of the characters before `j` are quotes, counting back from `j`.
pub open spec fn back_run(t: Seq<char>, j: int) -> int
    decreases j,
{
    if 0 < j <= t.len() && t[j - 1] == '"' { 1 + back_run(t, j - 1) } else { 0 }
}

/// The touch state named by a touch report.
pub open spec fn touch_named(st: Seq<char>) -> Touch {
    if st == seq!['u', 'p'] { Touch::Up } else if st == seq!['m', 'o', 'v', 'e'] { Touch::Move } else { Touch::Down }
}

/// The touch command in the value of a `touch` field: `[x, y, "state"]`.
pub open spec fn spec_touch(v: Seq<char>) -> Option<CmdView> {
    let inner0 = v.subrange(run_end(v, 0, '[', false), v.len() as int);
    match index_of(inner0, 0, ']') {
        None => None,
        Some(close) => {
            let inner = inner0.take(close);
            match index_of(inner, 0, ',') {
                None => None,
                Some(c0) => {
                    let r1 = inner.subrange(c0 + 1, inner.len() as int);
                    match index_of(r1, 0, ',') {
                        None => None,
                        Some(c1) => {
                            let r2 = r1.subrange(c1 + 1, r1.len() as int);
                            let e2 = match index_of(r2, 0, ',') { Some(c2) => c2, None => r2.len() as int };
                            match (parse_i32(spec_trim(inner.take(c0))), parse_i32(spec_trim(r1.take(c1)))) {
                                (Some(x), Some(y)) => Some(CmdView::Touch(x, y, touch_named(strip_quotes(spec_trim(r2.take(e2)))))),
                                _ => None,
                            }
                        },
                    }
                },
            }
        },
    }
}

/// The command in a line from the host: `quit` (when its value starts with `true`),
/// else the first of `keys`, `fps`, `soft` and `touch` present; `None` when none is,
/// or its value does not parse.
pub open spec fn spec_parse(line: Seq<char>) -> Option<CmdView> {
    let q = spec_field(line, "quit"@);
    if q is Some && q->0.len() >= 4 && q->0.take(4) == seq!['t', 'r', 'u', 'e'] {
        Some(CmdView::Quit)
    } else if spec_field(line, "keys"@) is Some {
        let v = spec_field(line, "keys"@)->0;
        match parse_u32(v.take(run_end(v, 0, ' ', true))) { Some(n) => Some(CmdView::Keys(n)), None => None }
    } else if spec_field(line, "fps"@) is Some {
        let v = spec_field(line, "fps"@)->0;
        match parse_u32(v.take(run_end(v, 0, ' ', true))) { Some(n) => Some(CmdView::Fps(n)), None => None }
    } else if spec_field(line, "soft"@) is Some {
        let v = spec_field(line, "soft"@)->0;
        let s1 = v.subrange(run_end(v, 0, '"', false), v.len() as int);
        let e = match index_of(s1, 0, '"') { Some(k) => k, None => s1.len() as int };
        Some(CmdView::Soft(s1.take(e)))
    } else if spec_field(line, "touch"@) is Some {
        spec_touch(spec_field(line, "touch"@)->0)
    } else {
        None
    }
}

fn slice_of(v: &Vec<char>, a: usize, b: usize) -> (r: Vec<char>)
    requires
        a <= b <= v.len(),
    ensures
        r@ == v@.subrange(a as int, b as int),
{
    let mut r: Vec<char> = Vec::new();
    let mut k = a;
    while k < b
        invariant
            a <= k <= b <= v.len(),
            r@ == v@.subrange(a as int, k as int),
        decreases b - k,
    {
        r.push(v[k]);
        k = k + 1;
        assert(r@ =~= v@.subrange(a as int, k as int));
    }
    r
}

fn in_run(x: char, c: char, digits: bool) -> (r: bool)
    ensures
        r == (if digits { is_digit(x) } else { x == c }),
{
    if digits { '0' <= x && x <= '9' } else { x == c }
}

fn run_end_exec(s: &Vec<char>, c: char, digits: bool) -> (r: usize)
    ensures
        r == run_end(s@, 0, c, digits),
        r <= s.len(),
{
    let mut i: usize = 0;
    while i < s.len() && in_run(s[i], c, digits)
        invariant
            i <= s.len(),
            run_end(s@, 0, c, digits) == run_end(s@, i as int, c, digits),
        decreases s.len() - i,
    {
        i = i + 1;
    }
    i
}

fn index_of_exec(s: &Vec<char>, c: char) -> (r: Option<usize>)
    ensures
        match r {
            Some(k) => index_of(s@, 0, c) == Some(k as int) && k < s.len(),
            None => index_of(s@, 0, c) is None,
        },
{
    let mut i: usize = 0;
    while i < s.len()
        invariant
            i <= s.len(),
            index_of(s@, 0, c) == index_of(s@, i as int, c),
        decreases s.len() - i,
    {
        if s[i] == c {
            return Some(i);
        }
        i = i + 1;
    }
    None
}

proof fn lemma_dec_mono(d: Seq<char>, k: int)
    requires
        all_digits(d),
        0 <= k <= d.len(),
    ensures
        0 <= dec_value(d.take(k)) <= dec_value(d),
    decreases d.len(),
{
    if d.len() > 0 {
        assert(all_digits(d.drop_last())) by {
            assert forall|i: int| 0 <= i < d.drop_last().len() implies is_digit(#[trigger] d.drop_last()[i]) by {
                assert(is_digit(d[i]));
            }
        }
        assert(is_digit(d[d.len() - 1]));
        if k == d.len() {
            assert(d.take(k) =~= d);
            lemma_dec_mono(d.drop_last(), d.len() - 1);
            assert(d.drop_last().take(d.len() - 1) =~= d.drop_last());
        } else {
            lemma_dec_mono(d.drop_last(), k);
            assert(d.drop_last().take(k) =~= d.take(k));
            lemma_dec_mono(d.drop_last(), d.len() - 1);
            assert(d.drop_last().take(d.len() - 1) =~= d.drop_last());
        }
    } else {
        assert(d.take(k) =~= d);
    }
}

/// The value of decimal digits, or `None` above `limit` (at most `2^32`).
fn dec_upto(d: &Vec<char>, limit: u64) -> (r: Option<u64>)
    requires
        all_digits(d@),
        limit <= 0x1_0000_0000,
    ensures
        match r {
            Some(v) => v == dec_value(d@) && v <= limit,
            None => dec_value(d@) > limit,
        },
{
    let mut v: u64 = 0;
    let mut i: usize = 0;
    while i < d.len()
        invariant
            i <= d.len(),
            all_digits(d@),
            limit <= 0x1_0000_0000,
            v == dec_value(d@.take(i as int)),
            v <= limit,
        decreases d.len() - i,
    {
        assert(d@.take(i + 1).drop_last() =~= d@.take(i as int));
        assert(is_digit(d@[i as int]));
        let dg = (d[i] as u32 - 48) as u64;
        let nv = v * 10 + dg;
        if nv > limit {
            proof {
                lemma_dec_mono(d@, i + 1);
            }
            return None;
        }
        v = nv;
        i = i + 1;
    }
    assert(d@.take(d.len() as int) =~= d@);
    Some(v)
}

fn parse_u32_exec(d: &Vec<char>) -> (r: Option<u32>)
    ensures
        r == parse_u32(d@),
{
    let mut i: usize = 0;
    while i < d.len()
        invariant
            i <= d.len(),
            forall|j: int| 0 <= j < i ==> is_digit(#[trigger] d@[j]),
        decreases d.len() - i,
    {
        if !('0' <= d[i] && d[i] <= '9') {
            return None;
        }
        i = i + 1;
    }
    if d.len() == 0 {
        return None;
    }
    match dec_upto(d, 0xFFFF_FFFF) {
        Some(v) => Some(v as u32),
        None => None,
    }
}

fn parse_i32_exec(t: &Vec<char>) -> (r: Option<i32>)
    ensures
        r == parse_i32(t@),
{
    let signed = t.len() > 0 && (t[0] == '-' || t[0] == '+');
    let neg = signed && t[0] == '-';
    let ds = if signed { slice_of(t, 1, t.len()) } else { slice_of(t, 0, t.len()) };
    assert(signed ==> ds@ =~= t@.drop_first());
    assert(!signed ==> ds@ =~= t@);
    if ds.len() == 0 {
        return None;
    }
    let mut i: usize = 0;
    while i < ds.len()
        invariant
            i <= ds.len(),
            ds@ == (if t@.len() > 0 && (t@[0] == '-' || t@[0] == '+') { t@.drop_first() } else { t@ }),
            forall|j: int| 0 <= j < i ==> is_digit(#[trigger] ds@[j]),
        decreases ds.len() - i,
    {
        if !('0' <= ds[i] && ds[i] <= '9') {
            assert(!is_digit(ds@[i as int]));
            return None;
        }
        i = i + 1;
    }
    let limit: u64 = if neg { 0x8000_0000 } else { 0x7FFF_FFFF };
    match dec_upto(&ds, limit) {
        Some(v) => if neg { Some((0 - v as i64) as i32) } else { Some(v as i32) },
        None => None,
    }
}

fn strip_quotes_exec(s: &Vec<char>) -> (r: Vec<char>)
    ensures
        r@ == strip_quotes(s@),
{
    let a = run_end_exec(s, '"', false);
    let t = slice_of(s, a, s.len());
    let mut j: usize = t.len();
    proof {
        lemma_back_run_bound(t@, t@.len() as int);
    }
    while j > 0 && t[j - 1] == '"'
        invariant
            j <= t.len(),
            back_run(t@, t@.len() as int) == (t.len() - j) + back_run(t@, j as int),
        decreases j,
    {
        j = j - 1;
    }
    slice_of(&t, 0, j)
}

proof fn lemma_back_run_bound(t: Seq<char>, j: int)
    requires
        0 <= j <= t.len(),
    ensures
        0 <= back_run(t, j) <= j,
    decreases j,
{
    if 0 < j && t[j - 1] == '"' {
        lemma_back_run_bound(t, j - 1);
    }
}

fn trimmed(v: &Vec<char>) -> (r: Vec<char>)
    ensures
        r@ == spec_trim(v@),
{
    let (a, b) = trim_range(v);
    slice_of(v, a, b)
}

fn touch_exec(v: &Vec<char>) -> (r: Option<Cmd>)
    ensures
        cmd_view(r) == spec_touch(v@),
{
    let i0 = run_end_exec(v, '[', false);
    let inner0 = slice_of(v, i0, v.len());
    let close = match index_of_exec(&inner0, ']') {
        Some(k) => k,
        None => {
            return None;
        },
    };
    let inner = slice_of(&inner0, 0, close);
    assert(inner@ =~= inner0@.take(close as int));
    let c0 = match index_of_exec(&inner, ',') {
        Some(k) => k,
        None => {
            return None;
        },
    };
    let r1 = slice_of(&inner, c0 + 1, inner.len());
    let c1 = match index_of_exec(&r1, ',') {
        Some(k) => k,
        None => {
            return None;
        },
    };
    let r2 = slice_of(&r1, c1 + 1, r1.len());
    let e2 = match index_of_exec(&r2, ',') {
        Some(k) => k,
        None => r2.len(),
    };
    let p0 = slice_of(&inner, 0, c0);
    assert(p0@ =~= inner@.take(c0 as int));
    let p1 = slice_of(&r1, 0, c1);
    assert(p1@ =~= r1@.take(c1 as int));
    let p2 = slice_of(&r2, 0, e2);
    assert(p2@ =~= r2@.take(e2 as int));
    let x = match parse_i32_exec(&trimmed(&p0)) {
        Some(x) => x,
        None => {
            return None;
        },
    };
    let y = match parse_i32_exec(&trimmed(&p1)) {
        Some(y) => y,
        None => {
            return None;
        },
    };
    let st = strip_quotes_exec(&trimmed(&p2));
    let t = if st.len() == 2 && st[0] == 'u' && st[1] == 'p' {
        assert(st@ =~= seq!['u', 'p']);
        Touch::Up
    } else if st.len() == 4 && st[0] == 'm' && st[1] == 'o' && st[2] == 'v' && st[3] == 'e' {
        assert(st@ =~= seq!['m', 'o', 'v', 'e']);
        assert(st@ != seq!['u', 'p']);
        Touch::Move
    } else {
        proof {
            if st@ == seq!['u', 'p'] {
                assert(st@[0] == 'u' && st@[1] == 'p');
            }
            if st@ == seq!['m', 'o', 'v', 'e'] {
                assert(st@[0] == 'm' && st@[1] == 'o' && st@[2] == 'v' && st@[3] == 'e');
            }
        }
        Touch::Down
    };
    Some(Cmd::Touch(x, y, t))
}

/// The command in a line from the host (see `spec_parse`).
pub fn parse(line: &str) -> (r: Option<Cmd>)
    ensures
        cmd_view(r) == spec_parse(line@),
{
    if let Some(v) = field(line, "quit") {
        let cs = chars_of(v.as_str());
        if cs.len() >= 4 && cs[0] == 't' && cs[1] == 'r' && cs[2] == 'u' && cs[3] == 'e' {
            assert(cs@.take(4) =~= seq!['t', 'r', 'u', 'e']);
            return Some(Cmd::Quit);
        }
        proof {
            if cs@.len() >= 4 && cs@.take(4) == seq!['t', 'r', 'u', 'e'] {
                assert(cs@.take(4)[0] == cs@[0] && cs@.take(4)[1] == cs@[1] && cs@.take(4)[2] == cs@[2] && cs@.take(4)[3] == cs@[3]);
            }
        }
    }
    if let Some(v) = field(line, "keys") {
        let cs = chars_of(v.as_str());
        let e = run_end_exec(&cs, ' ', true);
        let d = slice_of(&cs, 0, e);
        assert(d@ =~= cs@.take(e as int));
        return match parse_u32_exec(&d) {
            Some(n) => Some(Cmd::Keys(n)),
            None => None,
        };
    }
    if let Some(v) = field(line, "fps") {
        let cs = chars_of(v.as_str());
        let e = run_end_exec(&cs, ' ', true);
        let d = slice_of(&cs, 0, e);
        assert(d@ =~= cs@.take(e as int));
        return match parse_u32_exec(&d) {
            Some(n) => Some(Cmd::Fps(n)),
            None => None,
        };
    }
    if let Some(v) = field(line, "soft") {
        let cs = chars_of(v.as_str());
        let a = run_end_exec(&cs, '"', false);
        let s1 = slice_of(&cs, a, cs.len());
        let e = match index_of_exec(&s1, '"') {
            Some(k) => k,
            None => s1.len(),
        };
        let s2 = slice_of(&s1, 0, e);
        assert(s2@ =~= s1@.take(e as int));
        assert(s2@.subrange(0, s2@.len() as int) =~= s2@);
        return Some(Cmd::Soft(to_string(&s2, 0, s2.len())));
    }
    if let Some(v) = field(line, "touch") {
        let cs = chars_of(v.as_str());
        return touch_exec(&cs);
    }
    None
}

} // verus!
