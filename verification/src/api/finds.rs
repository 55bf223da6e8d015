//! Directory searches: the names a pattern finds, in order, and the open searches a
//! program steps through by handle.
use vstd::prelude::*;
use crate::api::fileio::{glob, glob_match};
use crate::api::std_c::lex_order_chars;
use crate::session::{chars_of, spec_trim, trim_range};
use crate::strs::{copy_string, lowercased, string_push};

verus! {

broadcast use vstd::seq_lib::to_multiset_insert, vstd::seq_lib::to_multiset_build;

/// `a` comes no later than `b` in character-code order.
pub open spec fn name_le(a: Seq<char>, b: Seq<char>) -> bool {
    lex_order_chars(a, b) != 1
}

/// Names in ascending order.
pub open spec fn names_sorted(s: Seq<Seq<char>>) -> bool {
    forall|i: int, j: int| 0 <= i < j < s.len() ==> name_le(#[trigger] s[i], #[trigger] s[j])
}

/// The order swaps when the strings swap: 1 one way is 0xFFFF_FFFF the other.
proof fn lemma_lex_swap(a: Seq<char>, b: Seq<char>)
    ensures
        (lex_order_chars(a, b) == 1) == (lex_order_chars(b, a) == 0xFFFF_FFFF),
        (lex_order_chars(a, b) == 0) == (a == b),
        lex_order_chars(a, b) == 0 || lex_order_chars(a, b) == 1 || lex_order_chars(a, b) == 0xFFFF_FFFF,
    decreases a.len(),
{
    if a.len() > 0 && b.len() > 0 && a[0] == b[0] {
        lemma_lex_swap(a.drop_first(), b.drop_first());
        if a.drop_first() == b.drop_first() {
            assert forall|i: int| 0 <= i < a.len() implies a[i] == b[i] by {
                if i > 0 {
                    assert(a[i] == a.drop_first()[i - 1]);
                    assert(b[i] == b.drop_first()[i - 1]);
                }
            }
            assert(a =~= b);
        }
    } else if a.len() > 0 && b.len() > 0 {
        vstd::utf8::char_u32_cast(a[0], a[0] as u32);
        vstd::utf8::char_u32_cast(b[0], b[0] as u32);
    }
    if a.len() == 0 && b.len() == 0 {
        assert(a =~= b);
    }
    if a == b {
        lemma_lex_refl(a);
    }
}

proof fn lemma_lex_refl(a: Seq<char>)
    ensures
        lex_order_chars(a, a) == 0,
    decreases a.len(),
{
    if a.len() > 0 {
        lemma_lex_refl(a.drop_first());
    }
}

/// The order is transitive.
proof fn lemma_lex_trans(a: Seq<char>, b: Seq<char>, c: Seq<char>)
    requires
        name_le(a, b),
        name_le(b, c),
    ensures
        name_le(a, c),
    decreases a.len(),
{
    lemma_lex_swap(a, b);
    lemma_lex_swap(b, c);
    lemma_lex_swap(a, c);
    if a.len() > 0 && b.len() > 0 && c.len() > 0 {
        vstd::utf8::char_u32_cast(a[0], a[0] as u32);
        vstd::utf8::char_u32_cast(b[0], b[0] as u32);
        vstd::utf8::char_u32_cast(c[0], c[0] as u32);
    }
    if a.len() > 0 && b.len() > 0 && c.len() > 0 && a[0] == b[0] && b[0] == c[0] {
        lemma_lex_trans(a.drop_first(), b.drop_first(), c.drop_first());
    }
}

/// The names among `names` matching the pattern (ignoring case, see `glob`).
pub open spec fn matching(names: Seq<Seq<char>>, pat: Seq<char>) -> Seq<Seq<char>>
    decreases names.len(),
{
    if names.len() == 0 {
        Seq::empty()
    } else {
        let r = matching(names.drop_last(), pat);
        if glob(lowercased(pat), lowercased(names.last())) { r.push(names.last()) } else { r }
    }
}

/// The pattern a search uses: the one given without surrounding white space, `*`
/// when that leaves nothing.
pub open spec fn search_pattern(p: Seq<char>) -> Seq<char> {
    if spec_trim(p).len() == 0 { "*"@ } else { spec_trim(p) }
}

/// The mathematical value of a list of names.
pub open spec fn names_view(s: Seq<String>) -> Seq<Seq<char>> {
    s.map_values(|x: String| x@)
}

/// Insert `x` into sorted `out` after every name that is no later than it.
fn insert_sorted(out: &mut Vec<String>, x: String)
    requires
        names_sorted(names_view(old(out)@)),
    ensures
        names_sorted(names_view(final(out)@)),
        names_view(final(out)@).to_multiset() == names_view(old(out)@).to_multiset().insert(x@),
{
    let ghost o = names_view(out@);
    let xc = chars_of(x.as_str());
    let mut p: usize = 0;
    while p < out.len()
        invariant
            p <= out@.len(),
            o == names_view(out@),
            names_sorted(o),
            xc@ == x@,
            forall|k: int| 0 <= k < p ==> name_le(#[trigger] o[k], x@),
        ensures
            p <= out@.len(),
            forall|k: int| 0 <= k < p ==> name_le(#[trigger] o[k], x@),
            p < out@.len() ==> lex_order_chars(x@, o[p as int]) == 0xFFFF_FFFF,
        decreases out@.len() - p,
    {
        let yc = chars_of(out[p].as_str());
        assert(o[p as int] == out@[p as int]@);
        if crate::api::std_c::compare_chars(xc.as_slice(), yc.as_slice()) == 0xFFFF_FFFF {
            break;
        }
        proof {
            lemma_lex_swap(x@, o[p as int]);
        }
        p = p + 1;
    }
    out.insert(p, x);
    proof {
        let n = names_view(out@);
        assert(n =~= o.insert(p as int, x@));
        assert forall|i: int, j: int| 0 <= i < j < n.len() implies name_le(#[trigger] n[i], #[trigger] n[j]) by {
            if j == p {
                assert(n[i] == o[i]);
            } else if i == p {
                assert(n[j] == o[j - 1]);
                lemma_lex_swap(x@, o[p as int]);
                if j - 1 > p {
                    lemma_lex_trans(x@, o[p as int], o[j - 1]);
                }
            } else {
                let ii = if i < p { i } else { i - 1 };
                let jj = if j < p { j } else { j - 1 };
                assert(n[i] == o[ii] && n[j] == o[jj]);
            }
        }
    }
}


fn pattern_of(pattern: &str) -> (r: String)
    ensures
        r@ == search_pattern(pattern@),
{
    let cs = chars_of(pattern);
    let (a, b) = trim_range(&cs);
    if a >= b {
        return "*".to_owned();
    }
    let mut p = String::new();
    let mut i: usize = a;
    while i < b
        invariant
            a <= i <= b <= cs@.len(),
            p@ == cs@.subrange(a as int, i as int),
        decreases b - i,
    {
        string_push(&mut p, cs[i]);
        assert(p@ =~= cs@.subrange(a as int, i + 1));
        i = i + 1;
    }
    p
}

/// The names a search of `names` (a directory's entries) with `pattern` finds: those
/// matching the pattern (see `search_pattern`), in ascending order.
pub fn find_matches(names: &Vec<String>, pattern: &str) -> (r: Vec<String>)
    ensures
        names_sorted(names_view(r@)),
        names_view(r@).to_multiset() == matching(names_view(names@), search_pattern(pattern@)).to_multiset(),
{
    let pat = pattern_of(pattern);
    let ghost nv = names_view(names@);
    let ghost sp = search_pattern(pattern@);
    let mut out: Vec<String> = Vec::new();
    let mut i: usize = 0;
    assert(nv.take(0) =~= Seq::<Seq<char>>::empty());
    assert(names_view(out@) =~= Seq::<Seq<char>>::empty());
    while i < names.len()
        invariant
            i <= names@.len(),
            nv == names_view(names@),
            pat@ == sp,
            names_sorted(names_view(out@)),
            names_view(out@).to_multiset() == matching(nv.take(i as int), sp).to_multiset(),
        decreases names@.len() - i,
    {
        assert(nv.take(i + 1).drop_last() =~= nv.take(i as int));
        assert(nv.take(i + 1).last() == names@[i as int]@);
        if glob_match(pat.as_str(), names[i].as_str()) {
            insert_sorted(&mut out, copy_string(&names[i]));
        }
        i = i + 1;
    }
    assert(nv.take(names@.len() as int) =~= nv);
    out
}

// ---------------------------------------------------------------------------
// Open searches

/// The names left in the open search with handle `h`, if it is open.
pub open spec fn search_of(open: Seq<(u32, Seq<Seq<char>>)>, h: u32) -> Option<Seq<Seq<char>>>
    decreases open.len(),
{
    if open.len() == 0 {
        None
    } else if open[0].0 == h {
        Some(open[0].1)
    } else {
        search_of(open.drop_first(), h)
    }
}

/// The open searches, with the handle the next one gets.
pub struct FindTable {
    pub next: u32,
    open: Vec<(u32, Vec<String>)>,
}

/// The mathematical value of the open searches.
pub struct FindView {
    pub next: u32,
    pub open: Seq<(u32, Seq<Seq<char>>)>,
}

impl View for FindTable {
    type V = FindView;

    closed spec fn view(&self) -> FindView {
        FindView { next: self.next, open: self.open@.map_values(|e: (u32, Vec<String>)| (e.0, names_view(e.1@))) }
    }
}

/// The searches with `h` holding `v`: an open search with that handle gets the new
/// names, else the search is added.
pub open spec fn with_search(open: Seq<(u32, Seq<Seq<char>>)>, h: u32, v: Seq<Seq<char>>) -> Seq<(u32, Seq<Seq<char>>)>
    decreases open.len(),
{
    if open.len() == 0 {
        seq![(h, v)]
    } else if open[0].0 == h {
        open.update(0, (h, v))
    } else {
        seq![open[0]] + with_search(open.drop_first(), h, v)
    }
}

/// The searches without the one with handle `h`.
pub open spec fn without_search(open: Seq<(u32, Seq<Seq<char>>)>, h: u32) -> Seq<(u32, Seq<Seq<char>>)>
    decreases open.len(),
{
    if open.len() == 0 {
        open
    } else if open[0].0 == h {
        open.drop_first()
    } else {
        seq![open[0]] + without_search(open.drop_first(), h)
    }
}

impl FindTable {
    /// No open searches; the first gets handle 1.
    pub fn new() -> (t: FindTable)
        ensures
            t@.next == 1,
            t@.open.len() == 0,
    {
        FindTable { next: 1, open: Vec::new() }
    }

    fn index_of(&self, h: u32) -> (r: usize)
        ensures
            r <= self.open@.len(),
            r < self.open@.len() ==> self.open@[r as int].0 == h,
            forall|k: int| 0 <= k < r ==> #[trigger] self.open@[k].0 != h,
    {
        let mut i: usize = 0;
        while i < self.open.len()
            invariant
                i <= self.open@.len(),
                forall|k: int| 0 <= k < i ==> #[trigger] self.open@[k].0 != h,
            decreases self.open@.len() - i,
        {
            if self.open[i].0 == h {
                return i;
            }
            i = i + 1;
        }
        i
    }

    /// Start a search over `names` (already matched and ordered): `None` when there
    /// are none; otherwise the first name and the new search's handle, the others kept
    /// under it.
    pub fn find_first(&mut self, names: Vec<String>) -> (r: Option<(String, u32)>)
        requires
            old(self)@.next < u32::MAX,
        ensures
            names@.len() == 0 ==> r is None && final(self)@ == old(self)@,
            names@.len() > 0 ==> (r matches Some((first, h)) && first@ == names@[0]@ && h == old(self)@.next
                && final(self)@.next == old(self)@.next + 1
                && final(self)@.open == with_search(old(self)@.open, h, names_view(names@).drop_first())),
    {
        if names.len() == 0 {
            return None;
        }
        let mut names = names;
        let ghost nv = names_view(names@);
        let first = names.remove(0);
        assert(names_view(names@) =~= nv.drop_first());
        let h = self.next;
        self.next = self.next + 1;
        self.put(h, names);
        Some((first, h))
    }

    fn put(&mut self, h: u32, v: Vec<String>)
        ensures
            final(self)@.next == old(self)@.next,
            final(self)@.open == with_search(old(self)@.open, h, names_view(v@)),
    {
        let i = self.index_of(h);
        let ghost o = self@.open;
        let ghost vv = names_view(v@);
        proof {
            lemma_with_search(o, h, vv, i as int);
        }
        if i < self.open.len() {
            self.open.set(i, (h, v));
            assert(self@.open =~= o.update(i as int, (h, vv)));
        } else {
            self.open.push((h, v));
            assert(self@.open =~= o.push((h, vv)));
        }
    }

    /// The next name of the open search `h`: `None` when it is not open or has none
    /// left.
    pub fn find_next(&mut self, h: u32) -> (r: Option<String>)
        ensures
            final(self)@.next == old(self)@.next,
            match search_of(old(self)@.open, h) {
                Some(v) if v.len() > 0 => (r matches Some(n) && n@ == v[0]
                    && final(self)@.open == with_search(old(self)@.open, h, v.drop_first())),
                _ => r is None && final(self)@ == old(self)@,
            },
    {
        let i = self.index_of(h);
        let ghost o = self@.open;
        proof {
            lemma_search_of(o, h, i as int);
        }
        if i >= self.open.len() || self.open[i].1.len() == 0 {
            return None;
        }
        let mut entry = self.open.remove(i);
        let ghost ev = names_view(entry.1@);
        assert(o[i as int].1 == ev);
        let n = entry.1.remove(0);
        assert(names_view(entry.1@) =~= ev.drop_first());
        self.open.insert(i, entry);
        proof {
            lemma_with_search(o, h, ev.drop_first(), i as int);
        }
        assert(self@.open =~= o.update(i as int, (h, ev.drop_first())));
        Some(n)
    }

    /// End the search `h`.
    pub fn find_close(&mut self, h: u32)
        ensures
            final(self)@.next == old(self)@.next,
            final(self)@.open == without_search(old(self)@.open, h),
    {
        let i = self.index_of(h);
        let ghost o = self@.open;
        proof {
            lemma_without_search(o, h, i as int);
        }
        if i < self.open.len() {
            self.open.remove(i);
            assert(self@.open =~= o.remove(i as int));
        } else {
            assert(self@.open =~= o);
        }
    }
}

/// Where the first search with handle `h` sits, `with_search` replaces it (or adds
/// one at the end).
proof fn lemma_with_search(o: Seq<(u32, Seq<Seq<char>>)>, h: u32, v: Seq<Seq<char>>, i: int)
    requires
        0 <= i <= o.len(),
        i < o.len() ==> o[i].0 == h,
        forall|k: int| 0 <= k < i ==> #[trigger] o[k].0 != h,
    ensures
        with_search(o, h, v) == if i < o.len() { o.update(i, (h, v)) } else { o.push((h, v)) },
    decreases o.len(),
{
    if o.len() > 0 && o[0].0 != h {
        assert forall|k: int| 0 <= k < i - 1 implies #[trigger] o.drop_first()[k].0 != h by {
            assert(o.drop_first()[k] == o[k + 1]);
        }
        lemma_with_search(o.drop_first(), h, v, i - 1);
        if i < o.len() {
            assert(seq![o[0]] + o.drop_first().update(i - 1, (h, v)) =~= o.update(i, (h, v)));
        } else {
            assert(seq![o[0]] + o.drop_first().push((h, v)) =~= o.push((h, v)));
        }
    } else if o.len() == 0 {
        assert(seq![(h, v)] =~= o.push((h, v)));
    }
}

proof fn lemma_search_of(o: Seq<(u32, Seq<Seq<char>>)>, h: u32, i: int)
    requires
        0 <= i <= o.len(),
        i < o.len() ==> o[i].0 == h,
        forall|k: int| 0 <= k < i ==> #[trigger] o[k].0 != h,
    ensures
        search_of(o, h) == if i < o.len() { Some(o[i].1) } else { None::<Seq<Seq<char>>> },
    decreases o.len(),
{
    if o.len() > 0 && o[0].0 != h {
        assert forall|k: int| 0 <= k < i - 1 implies #[trigger] o.drop_first()[k].0 != h by {
            assert(o.drop_first()[k] == o[k + 1]);
        }
        lemma_search_of(o.drop_first(), h, i - 1);
    }
}

proof fn lemma_without_search(o: Seq<(u32, Seq<Seq<char>>)>, h: u32, i: int)
    requires
        0 <= i <= o.len(),
        i < o.len() ==> o[i].0 == h,
        forall|k: int| 0 <= k < i ==> #[trigger] o[k].0 != h,
    ensures
        without_search(o, h) == if i < o.len() { o.remove(i) } else { o },
    decreases o.len(),
{
    if o.len() > 0 && o[0].0 != h {
        assert forall|k: int| 0 <= k < i - 1 implies #[trigger] o.drop_first()[k].0 != h by {
            assert(o.drop_first()[k] == o[k + 1]);
        }
        lemma_without_search(o.drop_first(), h, i - 1);
        if i < o.len() {
            assert(seq![o[0]] + o.drop_first().remove(i - 1) =~= o.remove(i));
        } else {
            assert(seq![o[0]] + o.drop_first() =~= o);
        }
    } else if o.len() > 0 {
        assert(o.drop_first() =~= o.remove(0));
    }
}

/// A search reads back what was stored under its handle, and storing under one
/// handle leaves the other searches as they were.
pub proof fn search_reads_back(o: Seq<(u32, Seq<Seq<char>>)>, h: u32, k: u32, v: Seq<Seq<char>>)
    ensures
        search_of(with_search(o, h, v), h) == Some(v),
        k != h ==> search_of(with_search(o, h, v), k) == search_of(o, k),
    decreases o.len(),
{
    reveal_with_fuel(search_of, 2);
    if o.len() > 0 && o[0].0 != h {
        search_reads_back(o.drop_first(), h, k, v);
        let w = with_search(o.drop_first(), h, v);
        assert((seq![o[0]] + w).drop_first() =~= w);
    } else if o.len() > 0 {
        assert(o.update(0, (h, v)).drop_first() =~= o.drop_first());
    } else {
        assert(seq![(h, v)].drop_first() =~= Seq::<(u32, Seq<Seq<char>>)>::empty());
    }
}

/// A closed search is gone, and closing one leaves the others as they were.
pub proof fn closed_search_is_gone(o: Seq<(u32, Seq<Seq<char>>)>, h: u32, k: u32)
    requires
        forall|i: int, j: int| 0 <= i < j < o.len() ==> #[trigger] o[i].0 != #[trigger] o[j].0,
    ensures
        search_of(without_search(o, h), h) is None,
        k != h ==> search_of(without_search(o, h), k) == search_of(o, k),
    decreases o.len(),
{
    if o.len() > 0 {
        let t = o.drop_first();
        assert forall|i: int, j: int| 0 <= i < j < t.len() implies #[trigger] t[i].0 != #[trigger] t[j].0 by {
            assert(t[i] == o[i + 1] && t[j] == o[j + 1]);
        }
        if o[0].0 != h {
            closed_search_is_gone(t, h, k);
            assert((seq![o[0]] + without_search(t, h)).drop_first() =~= without_search(t, h));
        } else {
            lemma_no_handle(t, h);
        }
    }
}

proof fn lemma_no_handle(o: Seq<(u32, Seq<Seq<char>>)>, h: u32)
    requires
        forall|i: int| 0 <= i < o.len() ==> #[trigger] o[i].0 != h,
    ensures
        search_of(o, h) is None,
    decreases o.len(),
{
    if o.len() > 0 {
        assert forall|i: int| 0 <= i < o.drop_first().len() implies #[trigger] o.drop_first()[i].0 != h by {
            assert(o.drop_first()[i] == o[i + 1]);
        }
        lemma_no_handle(o.drop_first(), h);
    }
}

} // verus!
