//! The emulated file system's rules: how a program's path maps below the host root,
//! which files are glue files that spring into being, and how a file is opened.
use vstd::prelude::*;
use crate::session::chars_of;
use crate::strs::{lowercased, string_push, to_lowercase};

verus! {

/// The handle value of a failed open.
pub const OPEN_FAIL: u32 = 0xFFFF_FFFF;

/// `s` without its leading `/` characters.
pub open spec fn trim_slashes(s: Seq<char>) -> Seq<char>
    decreases s.len(),
{
    if s.len() > 0 && s[0] == '/' { trim_slashes(s.drop_first()) } else { s }
}

/// A path with `\` turned into `/`.
pub open spec fn forward_slashes(s: Seq<char>) -> Seq<char> {
    s.map_values(|c: char| if c == '\\' { '/' } else { c })
}

/// A program's path relative to the root: separators made `/`, leading ones dropped,
/// and a drive prefix (`X:`) with the separators after it dropped too.
pub open spec fn spec_norm(path: Seq<char>) -> Seq<char> {
    let p = trim_slashes(forward_slashes(path));
    if p.len() > 1 && (p[0] as u32) < 0x80 && p[1] == ':' { trim_slashes(p.skip(2)) } else { p }
}

fn skip_slashes(cs: &Vec<char>, i: usize) -> (r: usize)
    requires
        i <= cs@.len(),
    ensures
        i <= r <= cs@.len(),
        cs@.skip(r as int) == trim_slashes(cs@.skip(i as int)),
{
    let mut j = i;
    while j < cs.len() && cs[j] == '/'
        invariant
            i <= j <= cs@.len(),
            trim_slashes(cs@.skip(i as int)) == trim_slashes(cs@.skip(j as int)),
        decreases cs@.len() - j,
    {
        assert(cs@.skip(j as int).drop_first() =~= cs@.skip(j + 1));
        j = j + 1;
    }
    j
}

/// A program's path relative to the root (see `spec_norm`).
pub fn norm(path: &str) -> (r: String)
    ensures
        r@ == spec_norm(path@),
{
    let src = chars_of(path);
    let mut cs: Vec<char> = Vec::new();
    let mut i: usize = 0;
    while i < src.len()
        invariant
            i <= src@.len(),
            src@ == path@,
            cs@ == forward_slashes(src@.take(i as int)),
        decreases src@.len() - i,
    {
        let c = src[i];
        cs.push(if c == '\\' { '/' } else { c });
        assert(cs@ =~= forward_slashes(src@.take(i + 1)));
        i = i + 1;
    }
    assert(src@.take(src@.len() as int) =~= src@);
    assert(cs@.skip(0) =~= cs@);
    let a = skip_slashes(&cs, 0);
    let ghost p = trim_slashes(forward_slashes(path@));
    let mut from = a;
    if cs.len() - a > 1 && (cs[a] as u32) < 0x80 && cs[a + 1] == ':' {
        assert(p[0] == cs@[a as int] && p[1] == cs@[a + 1]);
        assert(cs@.skip(a + 2) =~= p.skip(2));
        from = skip_slashes(&cs, a + 2);
    } else {
        proof {
            if p.len() > 1 {
                assert(p[0] == cs@[a as int] && p[1] == cs@[a + 1]);
            }
        }
    }
    let mut r = String::new();
    let mut k: usize = from;
    while k < cs.len()
        invariant
            from <= k <= cs@.len(),
            r@ == cs@.subrange(from as int, k as int),
        decreases cs@.len() - k,
    {
        string_push(&mut r, cs[k]);
        assert(r@ =~= cs@.subrange(from as int, k + 1));
        k = k + 1;
    }
    assert(cs@.subrange(from as int, cs@.len() as int) =~= cs@.skip(from as int));
    r
}

/// The prefixes of the glue files that exist whenever a program looks for them.
pub open spec fn glue_prefix(k: int) -> Seq<char> {
    if k == 0 {
        "dfwsms"@
    } else if k == 1 {
        "dfwmix"@
    } else if k == 2 {
        "wpay"@
    } else if k == 3 {
        "cdlist"@
    } else if k == 4 {
        "cwstorecfg"@
    } else if k == 5 {
        "wstore_host"@
    } else {
        "coolbar_list"@
    }
}

/// The part of a path after its last `/`.
pub open spec fn last_part(s: Seq<char>) -> Seq<char>
    decreases s.len(),
{
    if s.len() == 0 {
        s
    } else if s.last() == '/' {
        Seq::empty()
    } else {
        last_part(s.drop_last()).push(s.last())
    }
}

/// Whether a path names a glue file: the last part of its normal form, in lower case,
/// starts with one of the glue prefixes.
pub open spec fn spec_is_glue_file(path: Seq<char>) -> bool {
    let base = lowercased(last_part(spec_norm(path)));
    exists|k: int| 0 <= k < 7 && base.len() >= glue_prefix(k).len() && #[trigger] base.take(glue_prefix(k).len() as int) == glue_prefix(k)
}

fn glue_prefix_str(k: usize) -> (r: &'static str)
    requires
        k < 7,
    ensures
        r@ == glue_prefix(k as int),
{
    if k == 0 {
        "dfwsms"
    } else if k == 1 {
        "dfwmix"
    } else if k == 2 {
        "wpay"
    } else if k == 3 {
        "cdlist"
    } else if k == 4 {
        "cwstorecfg"
    } else if k == 5 {
        "wstore_host"
    } else {
        "coolbar_list"
    }
}

fn starts_with_chars(s: &Vec<char>, p: &Vec<char>) -> (r: bool)
    ensures
        r == (s@.len() >= p@.len() && s@.take(p@.len() as int) == p@),
{
    if s.len() < p.len() {
        return false;
    }
    let mut i: usize = 0;
    while i < p.len()
        invariant
            i <= p@.len() <= s@.len(),
            forall|j: int| 0 <= j < i ==> s@[j] == p@[j],
        decreases p@.len() - i,
    {
        if s[i] != p[i] {
            assert(s@.take(p@.len() as int)[i as int] != p@[i as int]);
            return false;
        }
        i = i + 1;
    }
    assert(s@.take(p@.len() as int) =~= p@);
    true
}

fn last_part_of(s: &Vec<char>) -> (r: String)
    ensures
        r@ == last_part(s@),
{
    let n = s.len();
    let mut k: usize = n;
    assert(s@.take(n as int) =~= s@);
    assert(last_part(s@) + s@.subrange(n as int, n as int) =~= last_part(s@));
    while k > 0 && s[k - 1] != '/'
        invariant
            k <= n == s@.len(),
            last_part(s@) == last_part(s@.take(k as int)) + s@.subrange(k as int, n as int),
        decreases k,
    {
        assert(s@.take(k as int).drop_last() =~= s@.take(k - 1));
        assert(s@.subrange(k - 1, n as int) =~= seq![s@[k - 1]] + s@.subrange(k as int, n as int));
        assert(last_part(s@.take(k as int)) == last_part(s@.take(k - 1)).push(s@[k - 1]));
        assert(last_part(s@.take(k - 1)).push(s@[k - 1]) + s@.subrange(k as int, n as int) =~= last_part(s@.take(k - 1))
            + s@.subrange(k - 1, n as int));
        k = k - 1;
    }
    proof {
        if k > 0 {
            assert(s@.take(k as int).last() == '/');
        }
        assert(last_part(s@.take(k as int)) =~= Seq::<char>::empty()) by {
            if k == 0 {
                assert(s@.take(0) =~= Seq::<char>::empty());
            }
        }
    }
    let mut r = String::new();
    let mut i: usize = k;
    while i < n
        invariant
            k <= i <= n == s@.len(),
            r@ == s@.subrange(k as int, i as int),
        decreases n - i,
    {
        string_push(&mut r, s[i]);
        assert(r@ =~= s@.subrange(k as int, i + 1));
        i = i + 1;
    }
    assert(last_part(s@) =~= s@.subrange(k as int, n as int));
    r
}

/// Whether a path names a glue file (see `spec_is_glue_file`).
pub fn is_glue_file(path: &str) -> (r: bool)
    ensures
        r == spec_is_glue_file(path@),
{
    let n = norm(path);
    let ncs = chars_of(n.as_str());
    let base = last_part_of(&ncs);
    let low = to_lowercase(base.as_str());
    let lc = chars_of(low.as_str());
    let mut k: usize = 0;
    while k < 7
        invariant
            k <= 7,
            lc@ == lowercased(last_part(spec_norm(path@))),
            forall|j: int| 0 <= j < k ==> !(lc@.len() >= glue_prefix(j).len() && #[trigger] lc@.take(glue_prefix(j).len() as int) == glue_prefix(j)),
        decreases 7 - k,
    {
        let p = chars_of(glue_prefix_str(k));
        if starts_with_chars(&lc, &p) {
            return true;
        }
        k = k + 1;
    }
    false
}

// ---------------------------------------------------------------------------
// Opening files

/// How a file is opened: truncated for writing, for appending, for reading and
/// writing, or for reading.
#[derive(Clone, Copy, Debug, PartialEq, Eq, Structural)]
pub enum OpenKind {
    Truncate,
    Append,
    ReadWrite,
    Read,
}

/// How to open a file: below the root only (`writing`) or also in the base
/// directory; whether to make it when it is missing; and how to open it.
#[derive(Clone, Copy, Debug, PartialEq, Eq, Structural)]
pub struct OpenPlan {
    pub writing: bool,
    pub make_missing: bool,
    pub kind: OpenKind,
}

/// Whether `m` holds `c`.
pub open spec fn has(m: Seq<char>, c: char) -> bool {
    exists|i: int| 0 <= i < m.len() && m[i] == c
}

/// How a program's open of `path` with `mode` goes: `None` (the open fails) for an
/// empty path or one ending with a separator. The mode, in lower case, counts when
/// it holds `r`, `w`, `a` or `+`, else it is `r`; `w`, `a` or `+` write; `w` and `a`
/// make a missing file, and so does opening a glue file.
pub open spec fn spec_open_plan(path: Seq<char>, mode: Seq<char>) -> Option<OpenPlan> {
    let l = lowercased(mode);
    let m = if has(l, 'r') || has(l, 'w') || has(l, 'a') || has(l, '+') { l } else { "r"@ };
    let create = has(m, 'w') || has(m, 'a');
    if path.len() == 0 || path.last() == '\\' || path.last() == '/' {
        None
    } else {
        Some(OpenPlan {
            writing: create || has(m, '+'),
            make_missing: create || spec_is_glue_file(path),
            kind: if has(m, 'w') {
                OpenKind::Truncate
            } else if has(m, 'a') {
                OpenKind::Append
            } else if has(m, '+') {
                OpenKind::ReadWrite
            } else {
                OpenKind::Read
            },
        })
    }
}

fn has_char(m: &Vec<char>, c: char) -> (r: bool)
    ensures
        r == has(m@, c),
{
    let mut i: usize = 0;
    while i < m.len()
        invariant
            i <= m@.len(),
            forall|j: int| 0 <= j < i ==> m@[j] != c,
        decreases m@.len() - i,
    {
        if m[i] == c {
            return true;
        }
        i = i + 1;
    }
    false
}

/// How a program's open goes (see `spec_open_plan`).
pub fn open_plan(path: &str, mode: &str) -> (r: Option<OpenPlan>)
    ensures
        r == spec_open_plan(path@, mode@),
{
    let low = to_lowercase(mode);
    let l = chars_of(low.as_str());
    let m: Vec<char> = if has_char(&l, 'r') || has_char(&l, 'w') || has_char(&l, 'a') || has_char(&l, '+') {
        l
    } else {
        let r = chars_of("r");
        proof {
            reveal_strlit("r");
        }
        r
    };
    let pc = chars_of(path);
    let n = pc.len();
    if n == 0 || pc[n - 1] == '\\' || pc[n - 1] == '/' {
        return None;
    }
    let w = has_char(&m, 'w');
    let a = has_char(&m, 'a');
    let plus = has_char(&m, '+');
    let create = w || a;
    let make_missing = if create { true } else { is_glue_file(path) };
    let kind = if w {
        OpenKind::Truncate
    } else if a {
        OpenKind::Append
    } else if plus {
        OpenKind::ReadWrite
    } else {
        OpenKind::Read
    };
    Some(OpenPlan { writing: create || plus, make_missing, kind })
}

/// Where a seek goes: from the start (offsets below 0 taken as 0), from the current
/// position, or from the end, by `whence` 0, 1 or 2; `None` for any other `whence`.
pub fn seek_target(off: i64, whence: u32) -> (r: Option<(u8, i64)>)
    ensures
        r == (if whence == 0 {
            Some((0u8, if off > 0 { off } else { 0 }))
        } else if whence == 1 {
            Some((1u8, off))
        } else if whence == 2 {
            Some((2u8, off))
        } else {
            None
        }),
{
    if whence == 0 {
        Some((0, if off > 0 { off } else { 0 }))
    } else if whence == 1 {
        Some((1, off))
    } else if whence == 2 {
        Some((2, off))
    } else {
        None
    }
}

} // verus!
