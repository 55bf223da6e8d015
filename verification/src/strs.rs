use vstd::prelude::*;

verus! {

/// The characters of a byte string read as Latin-1 (each byte is one char).
pub open spec fn latin1(b: Seq<u8>) -> Seq<char> {
    b.map_values(|c: u8| c as char)
}

/// Appends one char to a `String` (std's `String::push`).
#[verifier::external_body]
pub(crate) fn string_push(s: &mut String, c: char)
    ensures
        final(s)@ == old(s)@.push(c),
{
    s.push(c);
}

/// Equality of two string slices (std's `PartialEq` for `str`).
#[verifier::external_body]
pub(crate) fn str_eq(a: &str, b: &str) -> (r: bool)
    ensures
        r == (a@ == b@),
{
    a == b
}

/// A `String` holding the bytes of `b` read as Latin-1.
pub fn latin1_string(b: &[u8]) -> (s: String)
    ensures
        s@ == latin1(b@),
{
    let mut s = String::new();
    let mut i: usize = 0;
    while i < b.len()
        invariant
            i <= b.len(),
            s@ == latin1(b@.subrange(0, i as int)),
        decreases b.len() - i,
    {
        let c = b[i] as char;
        string_push(&mut s, c);
        proof {
            assert(latin1(b@.subrange(0, i + 1)) =~= latin1(b@.subrange(0, i as int)).push(b@[i as int] as char));
        }
        i = i + 1;
    }
    proof {
        assert(b@.subrange(0, b.len() as int) =~= b@);
    }
    s
}

/// A copy of a `String`.
pub fn copy_string(s: &String) -> (r: String)
    ensures
        r@ == s@,
{
    s.clone()
}

/// What `str::to_lowercase` yields: each character replaced by its Unicode lower-case
/// mapping.
pub uninterp spec fn lowercased(s: Seq<char>) -> Seq<char>;

/// A string in lower case (std's `str::to_lowercase`); the result depends on the
/// string alone.
#[verifier::external_body]
pub(crate) fn to_lowercase(s: &str) -> (r: String)
    ensures
        r@ == lowercased(s@),
{
    s.to_lowercase()
}

} // verus!
