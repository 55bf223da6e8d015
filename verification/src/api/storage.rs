//! Where saved games live.
use vstd::prelude::*;
use crate::session::{chars_of, spec_trim, trim_range};
use crate::strs::string_push;

verus! {

/// Characters that cannot stand in a file name.
pub open spec fn unsafe_char(c: char) -> bool {
    c == '/' || c == '\\' || c == ':' || c == '*' || c == '?' || c == '"' || c == '<' || c == '>' || c == '|'
}

/// A name made fit for a file name: characters that cannot stand in one become `_`,
/// surrounding white space goes, and an empty result becomes `unnamed`.
pub open spec fn spec_safe(s: Seq<char>) -> Seq<char> {
    let m = s.map_values(|c: char| if unsafe_char(c) { '_' } else { c });
    let t = spec_trim(m);
    if t.len() == 0 { "unnamed"@ } else { t }
}

/// A name made fit for a file name (see `spec_safe`).
pub fn safe(name: &str) -> (r: String)
    ensures
        r@ == spec_safe(name@),
{
    let cs = chars_of(name);
    let mut m: Vec<char> = Vec::new();
    let mut i: usize = 0;
    while i < cs.len()
        invariant
            i <= cs.len(),
            m@ =~= cs@.take(i as int).map_values(|c: char| if unsafe_char(c) { '_' } else { c }),
        decreases cs.len() - i,
    {
        let c = cs[i];
        let d = if c == '/' || c == '\\' || c == ':' || c == '*' || c == '?' || c == '"' || c == '<' || c == '>' || c == '|' { '_' } else { c };
        m.push(d);
        i = i + 1;
    }
    assert(cs@.take(cs.len() as int) =~= name@);
    let (a, b) = trim_range(&m);
    if a == b {
        return "unnamed".to_owned();
    }
    let mut o = String::new();
    let mut k = a;
    while k < b
        invariant
            a <= k <= b <= m@.len(),
            o@ == m@.subrange(a as int, k as int),
        decreases b - k,
    {
        string_push(&mut o, m[k]);
        k = k + 1;
        assert(o@ =~= m@.subrange(a as int, k as int));
    }
    o
}

/// `b` appended to the path `a` as a new component (a path separator in between
/// unless `a` is empty or already ends with one).
pub open spec fn path_join(a: Seq<char>, b: Seq<char>) -> Seq<char> {
    if a.len() == 0 { b } else if a.last() == '/' { a + b } else { a + seq!['/'] + b }
}

fn join_into(a: &mut String, b: &str)
    ensures
        final(a)@ == path_join(old(a)@, b@),
{
    let cs = chars_of(a.as_str());
    if cs.len() > 0 && cs[cs.len() - 1] != '/' {
        string_push(a, '/');
    }
    a.append(b);
    proof {
        assert(cs@ == old(a)@);
        if old(a)@.len() > 0 && old(a)@.last() != '/' {
            assert(final(a)@ =~= old(a)@ + seq!['/'] + b@);
        } else {
            assert(final(a)@ =~= path_join(old(a)@, b@));
        }
    }
}

/// Where the saves of module `module` named `name` live below the emulator's home
/// directory `home`: `saves/<module>/<name>`, both names made safe (see `spec_safe`).
pub fn save_path(home: &str, module: &str, name: &str) -> (r: String)
    ensures
        r@ == path_join(path_join(path_join(home@, "saves"@), spec_safe(module@)), spec_safe(name@)),
{
    let mut p = home.to_owned();
    join_into(&mut p, "saves");
    let m = safe(module);
    join_into(&mut p, m.as_str());
    let n = safe(name);
    join_into(&mut p, n.as_str());
    p
}

} // verus!
