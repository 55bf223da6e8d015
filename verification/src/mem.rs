//! Address arithmetic, memory regions and the emulated heap allocator.
use std::collections::HashMap;
use vstd::prelude::*;
use crate::container::{CbeModule, SpecModule};
use crate::strs::string_push;

pub mod layout;

verus! {

broadcast use vstd::std_specs::hash::group_hash_axioms;

/// The page size of the emulated machine.
pub const PAGE: u32 = 0x1000;

/// `x` rounded up to a multiple of `a`, as a mathematical integer.
pub open spec fn spec_align_up(x: int, a: int) -> int {
    (x + a - 1) / a * a
}

/// `x` rounded up to a multiple of `a`, wrapped to 32 bits.
pub fn align_up(x: u32, a: u32) -> (r: u32)
    requires
        a > 0,
    ensures
        r as int == spec_align_up(x as int, a as int) % 0x1_0000_0000,
{
    let q: u64 = (x as u64 + a as u64 - 1) / a as u64;
    assert(q * a <= x as int + a as int - 1) by (nonlinear_arith)
        requires
            q as int == (x as int + a as int - 1) / (a as int),
            a > 0,
    ;
    let v: u64 = q * a as u64;
    assert(v as int == spec_align_up(x as int, a as int));
    assert(v as u32 == v % 0x1_0000_0000) by (bit_vector);
    v as u32
}

/// `x` rounded up to a whole number of pages, wrapped to 32 bits.
pub fn align_page(x: u32) -> (r: u32)
    ensures
        r as int == spec_align_up(x as int, PAGE as int) % 0x1_0000_0000,
{
    align_up(x, PAGE)
}

/// Rounding up gives the least multiple of `a` that is at least `x`.
pub proof fn align_up_bounds(x: int, a: int)
    requires
        a > 0,
        x >= 0,
    ensures
        x <= spec_align_up(x, a) < x + a,
        spec_align_up(x, a) % a == 0,
{
    let q = (x + a - 1) / a;
    let r = (x + a - 1) % a;
    vstd::arithmetic::div_mod::lemma_fundamental_div_mod(x + a - 1, a);
    assert(0 <= r < a);
    assert(q * a == x + a - 1 - r) by (nonlinear_arith)
        requires
            x + a - 1 == a * q + r,
    ;
    vstd::arithmetic::div_mod::lemma_mod_multiples_basic(q, a);
}

/// A named range of the emulated address space.
#[derive(Debug, Clone)]
pub struct Region {
    pub name: &'static str,
    pub base: u32,
    pub size: u32,
}

impl Region {
    /// Whether address `a` lies in the region.
    pub fn contains(&self, a: u32) -> (r: bool)
        ensures
            r == (self.base <= a && a < self.base as int + self.size as int),
    {
        a >= self.base && (a as u64) < self.base as u64 + self.size as u64
    }
}

// ---------------------------------------------------------------------------
// Messages

/// The hexadecimal digit of `d` (lower case).
pub open spec fn hex_digit(d: int) -> char {
    (if d < 10 { 48 + d } else { 87 + d }) as u8 as char
}

/// The hexadecimal digits of `n`, most significant first, without leading zeros.
pub open spec fn hex_digits(n: nat) -> Seq<char>
    decreases n,
{
    if n < 16 {
        seq![hex_digit(n as int)]
    } else {
        hex_digits(n / 16).push(hex_digit((n % 16) as int))
    }
}

/// `n` written as `0x` and its hexadecimal digits.
pub open spec fn spec_hex(n: nat) -> Seq<char> {
    seq!['0', 'x'] + hex_digits(n)
}

fn push_hex_digits(s: &mut String, n: u32)
    ensures
        final(s)@ == old(s)@ + hex_digits(n as nat),
    decreases n,
{
    if n >= 16 {
        push_hex_digits(s, n / 16);
    }
    let d = n % 16;
    let c: char = (if d < 10 { 48 + d } else { 87 + d }) as u8 as char;
    string_push(s, c);
    proof {
        if n >= 16 {
            assert(hex_digits(n as nat) == hex_digits((n / 16) as nat).push(hex_digit(d as int)));
        } else {
            assert(hex_digits(n as nat) == seq![hex_digit(n as int)]);
        }
    }
}

/// Appends `n` in the form `0x...`.
fn push_hex(s: &mut String, n: u32)
    ensures
        final(s)@ == old(s)@ + spec_hex(n as nat),
{
    string_push(s, '0');
    string_push(s, 'x');
    push_hex_digits(s, n);
    assert(final(s)@ =~= old(s)@ + spec_hex(n as nat));
}

/// The message for a request above `Bump::MAX_ALLOC`.
pub open spec fn too_large_msg(n: u32, tag: Seq<char>) -> Seq<char> {
    "单次分配 "@ + spec_hex(n as nat) + " 过大（tag="@ + tag + "）"@
}

/// The message for an exhausted heap.
pub open spec fn exhausted_msg(used: u32, size: u32) -> Seq<char> {
    "模拟堆耗尽（已用 "@ + spec_hex(used as nat) + " / "@ + spec_hex(size as nat) + "）"@
}

fn too_large_message(n: u32, tag: &str) -> (s: String)
    ensures
        s@ == too_large_msg(n, tag@),
{
    let mut s = "单次分配 ".to_owned();
    push_hex(&mut s, n);
    s.append(" 过大（tag=");
    s.append(tag);
    s.append("）");
    assert(s@ =~= too_large_msg(n, tag@));
    s
}

fn exhausted_message(used: u32, size: u32) -> (s: String)
    ensures
        s@ == exhausted_msg(used, size),
{
    let mut s = "模拟堆耗尽（已用 ".to_owned();
    push_hex(&mut s, used);
    s.append(" / ");
    push_hex(&mut s, size);
    s.append("）");
    assert(s@ =~= exhausted_msg(used, size));
    s
}

} // verus!

verus! {

// ---------------------------------------------------------------------------
// The heap allocator

/// The mathematical value of a `Bump` heap.
pub struct BumpView {
    pub base: u32,
    pub size: u32,
    /// The top of the allocated part; `base..cur` is covered by live blocks and free ranges.
    pub cur: u32,
    /// Each live block's address, with its size and tag.
    pub live: Map<u32, (u32, Seq<char>)>,
    /// The free ranges below `cur` as (address, size), in address order.
    pub free: Seq<(u32, u32)>,
}

/// The range `a..a+n` is a valid block of the heap: inside `base..cur`, nonempty, and
/// 16-byte granular relative to `base`.
pub open spec fn range_ok(v: BumpView, a: u32, n: u32) -> bool {
    &&& v.base <= a
    &&& a + n <= v.cur
    &&& n > 0
    &&& n % 16 == 0
    &&& (a - v.base) % 16 == 0
}

/// The ranges `a..a+n` and `b..b+m` do not overlap.
pub open spec fn apart(a: u32, n: u32, b: u32, m: u32) -> bool {
    a + n <= b || b + m <= a
}

/// The free ranges are in address order with gaps between them (adjacent ranges are
/// always merged).
pub open spec fn free_sorted(fl: Seq<(u32, u32)>) -> bool {
    forall|i: int, j: int| 0 <= i < j < fl.len() ==> #[trigger] fl[i].0 + fl[i].1 < #[trigger] fl[j].0
}

/// The invariant of a heap: finitely many live blocks, the heap ends below the top of the 32-bit address space, live blocks and
/// free ranges are valid and pairwise disjoint, and the free list is sorted and merged.
pub open spec fn heap_wf(v: BumpView) -> bool {
    &&& v.live.dom().finite()
    &&& v.base <= v.cur
    &&& v.cur <= v.base + v.size
    &&& v.base + v.size <= 0xFFFF_FFFF
    &&& (v.cur - v.base) % 16 == 0
    &&& free_sorted(v.free)
    &&& forall|i: int| 0 <= i < v.free.len() ==> range_ok(v, #[trigger] v.free[i].0, v.free[i].1)
    &&& forall|p: u32| #[trigger] v.live.contains_key(p) ==> range_ok(v, p, v.live[p].0)
    &&& forall|p: u32, q: u32|
        #[trigger] v.live.contains_key(p) && #[trigger] v.live.contains_key(q) && p != q
            ==> apart(p, v.live[p].0, q, v.live[q].0)
    &&& forall|p: u32, i: int|
        #[trigger] v.live.contains_key(p) && 0 <= i < v.free.len()
            ==> apart(p, v.live[p].0, #[trigger] v.free[i].0, v.free[i].1)
}

/// The size a request for `n` bytes occupies: at least 1, rounded up to 16.
pub open spec fn alloc_size(n: u32) -> int {
    spec_align_up(if n == 0 { 1 } else { n as int }, 16)
}

/// The index of the first free range from `i` on that holds `k` bytes, or the length
/// of the list when none does.
pub open spec fn first_fit(fl: Seq<(u32, u32)>, k: int, i: int) -> int
    decreases fl.len() - i,
{
    if i < 0 || i >= fl.len() {
        fl.len() as int
    } else if fl[i].1 >= k {
        i
    } else {
        first_fit(fl, k, i + 1)
    }
}

/// The free list after taking `k` bytes from the front of range `i`.
pub open spec fn take_free(fl: Seq<(u32, u32)>, i: int, k: int) -> Seq<(u32, u32)> {
    if fl[i].1 > k {
        fl.update(i, ((fl[i].0 + k) as u32, (fl[i].1 - k) as u32))
    } else {
        fl.remove(i)
    }
}

/// What `Bump::allocate` does: a request above `MAX_ALLOC` is refused; otherwise the
/// first free range that fits gives its front, else the top of the heap grows, else
/// the heap is exhausted. A refusal is an error when `strict`, address 0 otherwise.
pub open spec fn spec_alloc(v: BumpView, n: u32, tag: Seq<char>, strict: bool) -> (BumpView, Result<u32, Seq<char>>) {
    if n > Bump::MAX_ALLOC {
        (v, if strict { Err(too_large_msg(n, tag)) } else { Ok(0u32) })
    } else {
        let k = alloc_size(n);
        let i = first_fit(v.free, k, 0);
        if i < v.free.len() {
            let p = v.free[i].0;
            (BumpView { live: v.live.insert(p, (k as u32, tag)), free: take_free(v.free, i, k), ..v }, Ok(p))
        } else if v.cur + k > v.base + v.size {
            (v, if strict { Err(exhausted_msg((v.cur - v.base) as u32, v.size)) } else { Ok(0u32) })
        } else {
            (BumpView { cur: (v.cur + k) as u32, live: v.live.insert(v.cur, (k as u32, tag)), ..v }, Ok(v.cur))
        }
    }
}

/// The position at which a free range starting at `p` goes: the first index from `i`
/// on whose range starts at or after `p`.
pub open spec fn insert_pos(fl: Seq<(u32, u32)>, p: u32, i: int) -> int
    decreases fl.len() - i,
{
    if i < 0 || i >= fl.len() || fl[i].0 >= p {
        if i < 0 { 0 } else if i >= fl.len() { fl.len() as int } else { i }
    } else {
        insert_pos(fl, p, i + 1)
    }
}

/// Range `j` merged with the one after it when they touch.
pub open spec fn merge_next(fl: Seq<(u32, u32)>, j: int) -> Seq<(u32, u32)> {
    if j + 1 < fl.len() && fl[j].0 + fl[j].1 == fl[j + 1].0 {
        fl.update(j, (fl[j].0, (fl[j].1 + fl[j + 1].1) as u32)).remove(j + 1)
    } else {
        fl
    }
}

/// Range `j` merged into the one before it when they touch.
pub open spec fn merge_prev(fl: Seq<(u32, u32)>, j: int) -> Seq<(u32, u32)> {
    if 0 < j < fl.len() && fl[j - 1].0 + fl[j - 1].1 == fl[j].0 {
        fl.update(j - 1, (fl[j - 1].0, (fl[j - 1].1 + fl[j].1) as u32)).remove(j)
    } else {
        fl
    }
}

/// What `Bump::free` does: an unknown address is ignored; the top block lowers the
/// top of the heap; any other block joins the free list, merged with its neighbours.
pub open spec fn spec_free(v: BumpView, p: u32) -> BumpView {
    if !v.live.contains_key(p) {
        v
    } else {
        let n = v.live[p].0;
        if p + n == v.cur {
            BumpView { cur: p, live: v.live.remove(p), ..v }
        } else {
            let i = insert_pos(v.free, p, 0);
            BumpView { live: v.live.remove(p), free: merge_prev(merge_next(v.free.insert(i, (p, n)), i), i), ..v }
        }
    }
}

/// The emulated heap: a bump allocator over `base..base+size` that reuses freed
/// blocks first-fit and merges neighbouring free ranges.
pub struct Bump {
    pub base: u32,
    pub size: u32,
    pub cur: u32,
    /// Each live block's address, with its size and tag.
    pub blocks: HashMap<u32, (u32, String)>,
    /// The free ranges below `cur` as (address, size), in address order.
    pub freelist: Vec<(u32, u32)>,
}

/// The live blocks with their tags as character sequences.
pub open spec fn tags_view(m: Map<u32, (u32, String)>) -> Map<u32, (u32, Seq<char>)> {
    Map::new(|k: u32| m.contains_key(k), |k: u32| (m[k].0, m[k].1@))
}

impl View for Bump {
    type V = BumpView;

    open spec fn view(&self) -> BumpView {
        BumpView { base: self.base, size: self.size, cur: self.cur, live: tags_view(self.blocks@), free: self.freelist@ }
    }
}

/// The value of an allocation result.
pub open spec fn alloc_result(r: Result<u32, String>) -> Result<u32, Seq<char>> {
    match r {
        Ok(p) => Ok(p),
        Err(s) => Err(s@),
    }
}

impl Bump {
    /// The largest single request.
    pub const MAX_ALLOC: u32 = 0x0400_0000;

    /// Whether the heap satisfies its invariant.
    pub open spec fn wf(&self) -> bool {
        heap_wf(self@)
    }

    /// An empty heap over `base..base+size`.
    pub fn new(base: u32, size: u32) -> (b: Bump)
        requires
            base + size <= 0xFFFF_FFFF,
        ensures
            b@ == (BumpView { base, size, cur: base, live: Map::empty(), free: Seq::empty() }),
            b.wf(),
    {
        let b = Bump { base, size, cur: base, blocks: HashMap::new(), freelist: Vec::new() };
        assert(tags_view(b.blocks@) =~= Map::empty());
        b
    }

    /// The size of the live block at `p`.
    pub fn block_size(&self, p: u32) -> (r: Option<u32>)
        ensures
            r == (if self@.live.contains_key(p) { Some(self@.live[p].0) } else { None }),
    {
        match self.blocks.get(&p) {
            Some(e) => Some(e.0),
            None => None,
        }
    }

    /// How many bytes the heap has handed out up to its top.
    pub fn used(&self) -> (r: u32)
        requires
            self.wf(),
        ensures
            r == self@.cur - self@.base,
    {
        self.cur - self.base
    }

    /// The number of live blocks.
    pub fn live_blocks(&self) -> (r: usize)
        ensures
            r == self@.live.len(),
    {
        assert(tags_view(self.blocks@).dom() =~= self.blocks@.dom());
        self.blocks.len()
    }

    /// The number of free ranges.
    pub fn free_blocks(&self) -> (r: usize)
        ensures
            r == self@.free.len(),
    {
        self.freelist.len()
    }
}

} // verus!

verus! {

impl Bump {
    /// Allocate `n` bytes tagged `tag` (see `spec_alloc`).
    pub fn allocate(&mut self, n: u32, tag: &str, strict: bool) -> (r: Result<u32, String>)
        requires
            old(self).wf(),
        ensures
            final(self).wf(),
            (final(self)@, alloc_result(r)) == spec_alloc(old(self)@, n, tag@, strict),
    {
        proof {
            lemma_alloc_wf(self@, n, tag@, strict);
        }
        if n > Self::MAX_ALLOC {
            return if strict { Err(too_large_message(n, tag)) } else { Ok(0) };
        }
        let k = align_up(if n == 0 { 1 } else { n }, 16);
        proof {
            align_up_bounds(if n == 0 { 1 } else { n as int }, 16);
        }
        assert(k as int == alloc_size(n));
        let ghost v0 = self@;
        let mut i: usize = 0;
        while i < self.freelist.len()
            invariant
                i <= self.freelist.len(),
                self@ == v0,
                old(self)@ == v0,
                heap_wf(v0),
                heap_wf(spec_alloc(v0, n, tag@, strict).0),
                n <= Bump::MAX_ALLOC,
                k as int == alloc_size(n),
                first_fit(v0.free, k as int, 0) == first_fit(v0.free, k as int, i as int),
            decreases self.freelist.len() - i,
        {
            let (p, sz) = self.freelist[i];
            if sz >= k {
                if sz > k {
                    self.freelist.set(i, (p + k, sz - k));
                } else {
                    self.freelist.remove(i);
                }
                let ghost b0 = self.blocks@;
                self.blocks.insert(p, (k, tag.to_owned()));
                assert(tags_view(self.blocks@) =~= tags_view(b0).insert(p, (k, tag@)));
                assert(self.freelist@ =~= take_free(v0.free, i as int, k as int));
                return Ok(p);
            }
            i = i + 1;
        }
        if self.cur as u64 + k as u64 > self.base as u64 + self.size as u64 {
            return if strict { Err(exhausted_message(self.cur - self.base, self.size)) } else { Ok(0) };
        }
        let p = self.cur;
        self.cur = self.cur + k;
        let ghost b0 = self.blocks@;
        self.blocks.insert(p, (k, tag.to_owned()));
        assert(tags_view(self.blocks@) =~= tags_view(b0).insert(p, (k, tag@)));
        Ok(p)
    }
}

/// Allocation keeps the heap invariant.
pub proof fn lemma_alloc_wf(v: BumpView, n: u32, tag: Seq<char>, strict: bool)
    requires
        heap_wf(v),
    ensures
        heap_wf(spec_alloc(v, n, tag, strict).0),
{
    if n <= Bump::MAX_ALLOC {
        let k = alloc_size(n);
        align_up_bounds(if n == 0 { 1 } else { n as int }, 16);
        let i = first_fit(v.free, k, 0);
        lemma_first_fit(v.free, k, 0);
        if i < v.free.len() {
            lemma_alloc_from_free(v, i, k, tag);
        } else if v.cur + k <= v.base + v.size {
            lemma_alloc_from_top(v, k, tag);
        }
    }
}

proof fn lemma_first_fit(fl: Seq<(u32, u32)>, k: int, i: int)
    requires
        0 <= i <= fl.len(),
    ensures
        i <= first_fit(fl, k, i) <= fl.len(),
        first_fit(fl, k, i) < fl.len() ==> fl[first_fit(fl, k, i)].1 >= k,
    decreases fl.len() - i,
{
    if i < fl.len() && fl[i].1 < k {
        lemma_first_fit(fl, k, i + 1);
    }
}

proof fn lemma_alloc_from_top(v: BumpView, k: int, tag: Seq<char>)
    requires
        heap_wf(v),
        0 < k <= 0x0400_0010,
        k % 16 == 0,
        v.cur + k <= v.base + v.size,
    ensures
        heap_wf(BumpView { cur: (v.cur + k) as u32, live: v.live.insert(v.cur, (k as u32, tag)), ..v }),
{
    let v2 = BumpView { cur: (v.cur + k) as u32, live: v.live.insert(v.cur, (k as u32, tag)), ..v };
    assert forall|i: int| 0 <= i < v2.free.len() implies range_ok(v2, #[trigger] v2.free[i].0, v2.free[i].1) by {
        assert(range_ok(v, v.free[i].0, v.free[i].1));
    }
    assert forall|p: u32| #[trigger] v2.live.contains_key(p) implies range_ok(v2, p, v2.live[p].0) by {
        if p != v.cur {
            assert(range_ok(v, p, v.live[p].0));
        }
    }
    assert forall|p: u32, q: u32|
        #[trigger] v2.live.contains_key(p) && #[trigger] v2.live.contains_key(q) && p != q
        implies apart(p, v2.live[p].0, q, v2.live[q].0) by {
        if p != v.cur && q != v.cur {
            assert(apart(p, v.live[p].0, q, v.live[q].0));
        } else if p == v.cur {
            assert(range_ok(v, q, v.live[q].0));
        } else {
            assert(range_ok(v, p, v.live[p].0));
        }
    }
    assert forall|p: u32, i: int|
        #[trigger] v2.live.contains_key(p) && 0 <= i < v2.free.len()
        implies apart(p, v2.live[p].0, #[trigger] v2.free[i].0, v2.free[i].1) by {
        assert(range_ok(v, v.free[i].0, v.free[i].1));
        if p != v.cur {
            assert(apart(p, v.live[p].0, v.free[i].0, v.free[i].1));
        }
    }
}

proof fn lemma_alloc_from_free(v: BumpView, i: int, k: int, tag: Seq<char>)
    requires
        heap_wf(v),
        0 <= i < v.free.len(),
        v.free[i].1 >= k,
        0 < k,
        k % 16 == 0,
    ensures
        !v.live.contains_key(v.free[i].0),
        heap_wf(BumpView { live: v.live.insert(v.free[i].0, (k as u32, tag)), free: take_free(v.free, i, k), ..v }),
{
    let p = v.free[i].0;
    let sz = v.free[i].1;
    assert(range_ok(v, p, sz));
    if v.live.contains_key(p) {
        assert(apart(p, v.live[p].0, v.free[i].0, v.free[i].1));
        assert(range_ok(v, p, v.live[p].0));
    }
    let fl2 = take_free(v.free, i, k);
    let v2 = BumpView { live: v.live.insert(p, (k as u32, tag)), free: fl2, ..v };
    // Each range of the new free list lies inside a range of the old one.
    assert forall|j: int| 0 <= j < fl2.len() implies {
        let o = if sz > k || j < i { j } else { j + 1 };
        &&& 0 <= o < v.free.len()
        &&& v.free[o].0 <= #[trigger] fl2[j].0
        &&& fl2[j].0 + fl2[j].1 == v.free[o].0 + v.free[o].1
        &&& range_ok(v2, fl2[j].0, fl2[j].1)
        &&& (o == i ==> fl2[j].0 == p + k)
    } by {
        let o = if sz > k || j < i { j } else { j + 1 };
        assert(range_ok(v, v.free[o].0, v.free[o].1));
    }
    assert forall|a: int, b: int| 0 <= a < b < fl2.len() implies #[trigger] fl2[a].0 + fl2[a].1 < #[trigger] fl2[b].0 by {
        let oa = if sz > k || a < i { a } else { a + 1 };
        let ob = if sz > k || b < i { b } else { b + 1 };
        assert(v.free[oa].0 + v.free[oa].1 < v.free[ob].0);
    }
    assert forall|q: u32| #[trigger] v2.live.contains_key(q) implies range_ok(v2, q, v2.live[q].0) by {
        if q != p {
            assert(range_ok(v, q, v.live[q].0));
        }
    }
    assert forall|a: u32, b: u32|
        #[trigger] v2.live.contains_key(a) && #[trigger] v2.live.contains_key(b) && a != b
        implies apart(a, v2.live[a].0, b, v2.live[b].0) by {
        if a != p && b != p {
            assert(apart(a, v.live[a].0, b, v.live[b].0));
        } else if a == p {
            assert(apart(b, v.live[b].0, v.free[i].0, v.free[i].1));
        } else {
            assert(apart(a, v.live[a].0, v.free[i].0, v.free[i].1));
        }
    }
    assert forall|q: u32, j: int|
        #[trigger] v2.live.contains_key(q) && 0 <= j < v2.free.len()
        implies apart(q, v2.live[q].0, #[trigger] v2.free[j].0, v2.free[j].1) by {
        let o = if sz > k || j < i { j } else { j + 1 };
        assert(v.free[o].0 <= fl2[j].0);
        if q != p {
            assert(apart(q, v.live[q].0, v.free[o].0, v.free[o].1));
        } else if o != i {
            if o < i {
                assert(v.free[o].0 + v.free[o].1 < v.free[i].0);
            } else {
                assert(v.free[i].0 + v.free[i].1 < v.free[o].0);
            }
        }
    }
}

} // verus!

verus! {

impl Bump {
    /// Release the block at `p` (see `spec_free`).
    pub fn free(&mut self, p: u32)
        requires
            old(self).wf(),
        ensures
            final(self).wf(),
            final(self)@ == spec_free(old(self)@, p),
    {
        proof {
            lemma_free_wf(self@, p);
        }
        let ghost v0 = self@;
        let n = match self.blocks.remove(&p) {
            Some(e) => e.0,
            None => {
                assert(tags_view(self.blocks@) =~= v0.live);
                return;
            },
        };
        assert(tags_view(self.blocks@) =~= v0.live.remove(p));
        assert(range_ok(v0, p, n));
        if p + n == self.cur {
            self.cur = p;
            return;
        }
        let mut i: usize = 0;
        while i < self.freelist.len() && self.freelist[i].0 < p
            invariant
                i <= self.freelist.len(),
                self.freelist@ == v0.free,
                insert_pos(v0.free, p, 0) == insert_pos(v0.free, p, i as int),
            decreases self.freelist.len() - i,
        {
            i = i + 1;
        }
        assert(insert_pos(v0.free, p, i as int) == i);
        proof {
            lemma_free_shape(v0, p, n, i as int);
        }
        self.freelist.insert(i, (p, n));
        let ghost fl1 = self.freelist@;
        if i < self.freelist.len() - 1 && self.freelist[i].0 + self.freelist[i].1 == self.freelist[i + 1].0 {
            let nb = self.freelist[i + 1].1;
            let e = self.freelist[i];
            self.freelist.set(i, (e.0, e.1 + nb));
            self.freelist.remove(i + 1);
        }
        assert(self.freelist@ =~= merge_next(fl1, i as int));
        let ghost fl2 = self.freelist@;
        if i > 0 && self.freelist[i - 1].0 + self.freelist[i - 1].1 == self.freelist[i].0 {
            let nb = self.freelist[i].1;
            let e = self.freelist[i - 1];
            self.freelist.set(i - 1, (e.0, e.1 + nb));
            self.freelist.remove(i);
        }
        assert(self.freelist@ =~= merge_prev(fl2, i as int));
    }
}

proof fn lemma_insert_pos(fl: Seq<(u32, u32)>, p: u32, i: int)
    requires
        0 <= i <= fl.len(),
        forall|j: int| 0 <= j < i ==> fl[j].0 < p,
    ensures
        i <= insert_pos(fl, p, i) <= fl.len(),
        forall|j: int| 0 <= j < insert_pos(fl, p, i) ==> fl[j].0 < p,
        insert_pos(fl, p, i) < fl.len() ==> fl[insert_pos(fl, p, i)].0 >= p,
    decreases fl.len() - i,
{
    if i < fl.len() && fl[i].0 < p {
        lemma_insert_pos(fl, p, i + 1);
    }
}

/// The shape of the free list after a non-top block `p..p+n` is released: the ranges
/// before the insertion point stay, the new range absorbs a touching neighbour on
/// either side, and the ranges after it stay.
proof fn lemma_free_shape(v: BumpView, p: u32, n: u32, i: int)
    requires
        heap_wf(v),
        range_ok(v, p, n),
        forall|q: u32| #[trigger] v.live.contains_key(q) && q == p ==> v.live[q].0 == n,
        v.live.contains_key(p),
        p + n != v.cur,
        i == insert_pos(v.free, p, 0),
    ensures
        0 <= i <= v.free.len(),
        ({
            let fl = v.free;
            let fl1 = fl.insert(i, (p, n));
            let fl3 = merge_prev(merge_next(fl1, i), i);
            let a = i < fl.len() && p + n == fl[i].0;
            let b = i > 0 && fl[i - 1].0 + fl[i - 1].1 == p;
            let s = if b { i - 1 } else { i };
            let d = (if a { 1int } else { 0 }) + (if b { 1int } else { 0 }) - 1;
            &&& forall|j: int| 0 <= j < fl1.len() ==> #[trigger] fl1[j].0 + fl1[j].1 <= v.cur
            &&& forall|j: int| 0 <= j < merge_next(fl1, i).len() ==> #[trigger] merge_next(fl1, i)[j].0 + merge_next(fl1, i)[j].1 <= v.cur
            &&& fl3.len() == fl.len() - d
            &&& 0 <= s < fl3.len()
            &&& forall|j: int| 0 <= j < s ==> #[trigger] fl3[j] == fl[j]
            &&& fl3[s].0 == (if b { fl[i - 1].0 } else { p })
            &&& fl3[s].0 + fl3[s].1 == (if a { fl[i].0 + fl[i].1 } else { p + n })
            &&& forall|j: int| s < j < fl3.len() ==> #[trigger] fl3[j] == fl[j + d]
        }),
{
    let fl = v.free;
    lemma_insert_pos(fl, p, 0);
    assert forall|j: int| 0 <= j < fl.len() implies #[trigger] fl[j].0 + fl[j].1 <= v.cur by {
        assert(range_ok(v, fl[j].0, fl[j].1));
    }
    let fl1 = fl.insert(i, (p, n));
    assert forall|j: int| 0 <= j < fl1.len() implies #[trigger] fl1[j].0 + fl1[j].1 <= v.cur by {
        if j < i {
            assert(fl1[j] == fl[j]);
        } else if j > i {
            assert(fl1[j] == fl[j - 1]);
        }
    }
    let fl2 = merge_next(fl1, i);
    assert forall|j: int| 0 <= j < fl2.len() implies #[trigger] fl2[j].0 + fl2[j].1 <= v.cur by {
        if i + 1 < fl1.len() && fl1[i].0 + fl1[i].1 == fl1[i + 1].0 {
            if j < i {
                assert(fl2[j] == fl1[j]);
            } else if j == i {
                assert(fl1[i + 1].0 + fl1[i + 1].1 <= v.cur);
            } else {
                assert(fl2[j] == fl1[j + 1]);
            }
        }
    }
    assert(i < fl.len() ==> fl1[i + 1] == fl[i]);
    assert(i > 0 ==> fl1[i - 1] == fl[i - 1]);
    assert(fl1[i] == (p, n));
}

/// Releasing a block keeps the heap invariant.
pub proof fn lemma_free_wf(v: BumpView, p: u32)
    requires
        heap_wf(v),
    ensures
        heap_wf(spec_free(v, p)),
{
    if v.live.contains_key(p) {
        let n = v.live[p].0;
        assert(range_ok(v, p, n));
        if p + n == v.cur {
            lemma_free_top_wf(v, p);
        } else {
            lemma_free_merge_wf(v, p);
        }
    }
}

proof fn lemma_free_top_wf(v: BumpView, p: u32)
    requires
        heap_wf(v),
        v.live.contains_key(p),
        p + v.live[p].0 == v.cur,
    ensures
        heap_wf(BumpView { cur: p, live: v.live.remove(p), ..v }),
{
    let n = v.live[p].0;
    let v2 = BumpView { cur: p, live: v.live.remove(p), ..v };
    assert(range_ok(v, p, n));
    assert forall|i: int| 0 <= i < v2.free.len() implies range_ok(v2, #[trigger] v2.free[i].0, v2.free[i].1) by {
        assert(range_ok(v, v.free[i].0, v.free[i].1));
        assert(apart(p, n, v.free[i].0, v.free[i].1));
    }
    assert forall|q: u32| #[trigger] v2.live.contains_key(q) implies range_ok(v2, q, v2.live[q].0) by {
        assert(range_ok(v, q, v.live[q].0));
        assert(apart(q, v.live[q].0, p, n));
    }
    assert forall|a: u32, b: u32|
        #[trigger] v2.live.contains_key(a) && #[trigger] v2.live.contains_key(b) && a != b
        implies apart(a, v2.live[a].0, b, v2.live[b].0) by {
        assert(apart(a, v.live[a].0, b, v.live[b].0));
    }
    assert forall|q: u32, i: int|
        #[trigger] v2.live.contains_key(q) && 0 <= i < v2.free.len()
        implies apart(q, v2.live[q].0, #[trigger] v2.free[i].0, v2.free[i].1) by {
        assert(apart(q, v.live[q].0, v.free[i].0, v.free[i].1));
    }
}

#[verifier::rlimit(100)]
#[verifier::spinoff_prover]
proof fn lemma_free_merge_wf(v: BumpView, p: u32)
    requires
        heap_wf(v),
        v.live.contains_key(p),
        p + v.live[p].0 != v.cur,
    ensures
        heap_wf(spec_free(v, p)),
{
    let n = v.live[p].0;
    let fl = v.free;
    let i = insert_pos(fl, p, 0);
    assert(range_ok(v, p, n));
    lemma_insert_pos(fl, p, 0);
    lemma_free_shape(v, p, n, i);
    let fl1 = fl.insert(i, (p, n));
    let fl3 = merge_prev(merge_next(fl1, i), i);
    let a = i < fl.len() && p + n == fl[i].0;
    let b = i > 0 && fl[i - 1].0 + fl[i - 1].1 == p;
    let s = if b { i - 1 } else { i };
    let d = (if a { 1int } else { 0 }) + (if b { 1int } else { 0 }) - 1;
    let v2 = spec_free(v, p);
    assert(v2.free == fl3);
    assert(v2.live == v.live.remove(p));
    // Where the old ranges lie relative to the released block.
    assert forall|t: int| 0 <= t < fl.len() implies
        (t < i ==> #[trigger] fl[t].0 + fl[t].1 <= p) && (t >= i ==> p + n <= fl[t].0) by {
        assert(range_ok(v, fl[t].0, fl[t].1));
        assert(apart(p, n, fl[t].0, fl[t].1));
        if t > i {
            assert(fl[i].0 + fl[i].1 < fl[t].0);
        }
    }
    let st = fl3[s].0;
    let en = fl3[s].0 + fl3[s].1;
    assert(b ==> range_ok(v, fl[i - 1].0, fl[i - 1].1));
    assert(a ==> range_ok(v, fl[i].0, fl[i].1));
    assert(i > 0 && !b ==> fl[i - 1].0 + fl[i - 1].1 < p);
    assert(i < fl.len() && !a ==> p + n < fl[i].0);
    // The merged range is valid.
    assert(range_ok(v2, st, fl3[s].1)) by {
        assert((st - v.base) % 16 == 0);
        assert((en - v.base) % 16 == 0);
    }
    // The free list stays sorted with gaps.
    assert forall|j: int, k: int| 0 <= j < k < fl3.len() implies #[trigger] fl3[j].0 + fl3[j].1 < #[trigger] fl3[k].0 by {
        if j < s && k < s {
            assert(fl[j].0 + fl[j].1 < fl[k].0);
        } else if j > s {
            assert(fl[j + d].0 + fl[j + d].1 < fl[k + d].0);
        } else if j < s && k > s {
            assert(fl[j].0 + fl[j].1 < fl[k + d].0);
        } else if j < s && k == s {
            if b {
                assert(fl[j].0 + fl[j].1 < fl[i - 1].0);
            } else if j < i - 1 {
                assert(fl[j].0 + fl[j].1 < fl[i - 1].0);
            }
        } else {
            if a {
                assert(fl[i].0 + fl[i].1 < fl[k + d].0);
            } else if k + d > i {
                assert(fl[i].0 + fl[i].1 < fl[k + d].0);
            }
        }
    }
    assert forall|j: int| 0 <= j < v2.free.len() implies range_ok(v2, #[trigger] v2.free[j].0, v2.free[j].1) by {
        if j < s {
            assert(range_ok(v, fl[j].0, fl[j].1));
        } else if j > s {
            assert(range_ok(v, fl[j + d].0, fl[j + d].1));
        }
    }
    assert forall|q: u32| #[trigger] v2.live.contains_key(q) implies range_ok(v2, q, v2.live[q].0) by {
        assert(range_ok(v, q, v.live[q].0));
    }
    assert forall|x: u32, y: u32|
        #[trigger] v2.live.contains_key(x) && #[trigger] v2.live.contains_key(y) && x != y
        implies apart(x, v2.live[x].0, y, v2.live[y].0) by {
        assert(apart(x, v.live[x].0, y, v.live[y].0));
    }
    assert forall|q: u32, j: int|
        #[trigger] v2.live.contains_key(q) && 0 <= j < v2.free.len()
        implies apart(q, v2.live[q].0, #[trigger] v2.free[j].0, v2.free[j].1) by {
        assert(range_ok(v, q, v.live[q].0));
        if j < s {
            assert(apart(q, v.live[q].0, fl[j].0, fl[j].1));
        } else if j > s {
            assert(apart(q, v.live[q].0, fl[j + d].0, fl[j + d].1));
        } else {
            assert(apart(q, v.live[q].0, p, n));
            if b {
                assert(apart(q, v.live[q].0, fl[i - 1].0, fl[i - 1].1));
            }
            if a {
                assert(apart(q, v.live[q].0, fl[i].0, fl[i].1));
            }
        }
    }
}

proof fn lemma_insert_pos_at(fl: Seq<(u32, u32)>, p: u32, i: int, j: int)
    requires
        0 <= j <= i <= fl.len(),
        forall|t: int| 0 <= t < i ==> fl[t].0 < p,
        i < fl.len() ==> fl[i].0 >= p,
    ensures
        insert_pos(fl, p, j) == i,
    decreases i - j,
{
    if j < i {
        lemma_insert_pos_at(fl, p, i, j + 1);
    }
}

/// A strict allocation that succeeds hands out a block of `alloc_size(n)` bytes that
/// was not live, lies inside the heap at a 16-byte step from its base, and overlaps
/// no live block; the block becomes live with its tag.
pub proof fn alloc_fresh_block(v: BumpView, n: u32, tag: Seq<char>)
    requires
        heap_wf(v),
        spec_alloc(v, n, tag, true).1 is Ok,
    ensures
        ({
            let v2 = spec_alloc(v, n, tag, true).0;
            let p = spec_alloc(v, n, tag, true).1->Ok_0;
            let k = alloc_size(n);
            &&& !v.live.contains_key(p)
            &&& v2.live == v.live.insert(p, (k as u32, tag))
            &&& v.base <= p
            &&& p + k <= v.base + v.size
            &&& (p - v.base) % 16 == 0
            &&& forall|q: u32| #[trigger] v.live.contains_key(q) ==> apart(q, v.live[q].0, p, k as u32)
            &&& v2.live.len() == v.live.len() + 1
        }),
{
    let k = alloc_size(n);
    align_up_bounds(if n == 0 { 1 } else { n as int }, 16);
    let i = first_fit(v.free, k, 0);
    lemma_first_fit(v.free, k, 0);
    lemma_alloc_wf(v, n, tag, true);
    let v2 = spec_alloc(v, n, tag, true).0;
    let p = spec_alloc(v, n, tag, true).1->Ok_0;
    if i < v.free.len() {
        lemma_alloc_from_free(v, i, k, tag);
    } else {
        if v.live.contains_key(p) {
            assert(range_ok(v, p, v.live[p].0));
        }
    }
    assert(v2.live.contains_key(p));
    assert(range_ok(v2, p, v2.live[p].0));
    assert forall|q: u32| #[trigger] v.live.contains_key(q) implies apart(q, v.live[q].0, p, k as u32) by {
        assert(v2.live.contains_key(q) && v2.live.contains_key(p) && q != p);
        assert(apart(q, v2.live[q].0, p, v2.live[p].0));
    }
    assert(v2.live.dom() == v.live.dom().insert(p));
}

/// Freeing a live block makes it no longer live and leaves one live block fewer;
/// freeing any other address changes nothing.
pub proof fn free_drops_block(v: BumpView, p: u32)
    requires
        heap_wf(v),
    ensures
        v.live.contains_key(p) ==> !spec_free(v, p).live.contains_key(p) && spec_free(v, p).live.len() == v.live.len() - 1,
        !v.live.contains_key(p) ==> spec_free(v, p) == v,
{
    if v.live.contains_key(p) {
        assert(spec_free(v, p).live.dom() == v.live.dom().remove(p));
    }
}

/// Releasing a block right after a strict allocation handed it out gives back the heap
/// as it was, except where the block was a whole free range ending at the top of the
/// heap (the top is then lowered rather than the range listed again).
pub proof fn alloc_then_free(v: BumpView, n: u32, tag: Seq<char>)
    requires
        heap_wf(v),
        spec_alloc(v, n, tag, true).1 is Ok,
        spec_alloc(v, n, tag, true).1->Ok_0 + alloc_size(n) != v.cur,
    ensures
        spec_free(spec_alloc(v, n, tag, true).0, spec_alloc(v, n, tag, true).1->Ok_0) == v,
{
    let k = alloc_size(n);
    align_up_bounds(if n == 0 { 1 } else { n as int }, 16);
    alloc_fresh_block(v, n, tag);
    let i = first_fit(v.free, k, 0);
    lemma_first_fit(v.free, k, 0);
    let v2 = spec_alloc(v, n, tag, true).0;
    let p = spec_alloc(v, n, tag, true).1->Ok_0;
    let fl = v.free;
    assert(v2.live.remove(p) =~= v.live);
    if i < fl.len() {
        let sz = fl[i].1;
        assert(range_ok(v, fl[i].0, sz));
        let fl2 = take_free(fl, i, k);
        assert forall|t: int| 0 <= t < i implies fl2[t].0 < p by {
            assert(fl[t].0 + fl[t].1 < fl[i].0);
        }
        if i + 1 < fl.len() {
            assert(fl[i].0 + fl[i].1 < fl[i + 1].0);
        }
        lemma_insert_pos_at(fl2, p, i, 0);
        let fl1 = fl2.insert(i, (p, k as u32));
        if i > 0 {
            assert(fl[i - 1].0 + fl[i - 1].1 < fl[i].0);
        }
        if sz > k {
            assert(merge_next(fl1, i) =~= fl);
        } else {
            assert(fl1 =~= fl);
            assert(merge_next(fl1, i) =~= fl);
        }
        assert(merge_prev(fl, i) == fl);
    } else {
        assert(p == v.cur);
    }
}

} // verus!

verus! {

// ---------------------------------------------------------------------------
// Where a module's images go

/// Where the read-only and read-write images of a module are mapped.
#[derive(Debug, Clone, PartialEq, Eq, Structural)]
pub struct Placement {
    pub ro_base: u32,
    pub ro_size: u32,
    pub rw_base: u32,
    pub rw_size: u32,
}

/// The low 32 bits of `x`.
pub open spec fn low32(x: int) -> u32 {
    (x % 0x1_0000_0000) as u32
}

/// The larger of two values.
pub open spec fn max32(a: u32, b: u32) -> u32 {
    if a >= b { a } else { b }
}

/// The extent of the read-only image: its declared size, or the bytes present when
/// more (counted in 32 bits).
pub open spec fn ro_extent(m: SpecModule) -> u32 {
    max32(m.image_size, low32(m.ro.len() as int))
}

/// The extent of the read-write image: its declared size, or the bytes present when
/// more (counted in 32 bits).
pub open spec fn rw_extent(m: SpecModule) -> u32 {
    max32(m.rw_size, low32(m.rw.len() as int))
}

/// Where the read-write image of a module with a load base goes: at the declared image
/// end when that lies inside the read-only image plus 64 KiB, else right after the
/// read-only bytes, rounded up to 16.
pub open spec fn spec_rw_place(m: SpecModule) -> int {
    let hi = m.load_base + ro_extent(m) + 0x10000;
    if m.image_end > m.load_base && m.image_end < hi {
        m.image_end as int
    } else {
        m.load_base + spec_align_up(low32(m.ro.len() as int) as int, 16) % 0x1_0000_0000
    }
}

/// Where `place` maps a module: a load base of 0 means the default addresses.
pub open spec fn spec_place(m: SpecModule) -> Placement {
    Placement {
        ro_base: if m.load_base != 0 { m.load_base } else { layout::RO_DEFAULT },
        ro_size: low32(spec_align_up(ro_extent(m) as int, PAGE as int)),
        rw_base: if m.load_base != 0 { spec_rw_place(m) as u32 } else { layout::RW_BASE },
        rw_size: low32(spec_align_up(rw_extent(m) + 0x10000, PAGE as int)),
    }
}

fn len32(n: usize) -> (r: u32)
    ensures
        r == low32(n as int),
{
    assert(n as u32 == ((n as u64) % 0x1_0000_0000u64) as u32) by (bit_vector);
    n as u32
}

fn max_of(a: u32, b: u32) -> (r: u32)
    ensures
        r == max32(a, b),
{
    if a >= b { a } else { b }
}

/// Where the read-write image of a module with a load base goes (see `spec_rw_place`).
pub fn rw_place(m: &CbeModule) -> (r: u32)
    requires
        spec_rw_place(m@) <= u32::MAX,
    ensures
        r == spec_rw_place(m@),
{
    let end = m.image_end;
    let lo = m.load_base;
    let hi: u64 = m.load_base as u64 + max_of(m.image_size, len32(m.ro.len())) as u64 + 0x10000;
    if end > lo && (end as u64) < hi {
        end
    } else {
        m.load_base + align_up(len32(m.ro.len()), 16)
    }
}

/// Where a module's images are mapped (see `spec_place`).
pub fn place(m: &CbeModule) -> (r: Placement)
    requires
        rw_extent(m@) + 0x10000 <= u32::MAX,
        m@.load_base != 0 ==> spec_rw_place(m@) <= u32::MAX,
    ensures
        r == spec_place(m@),
{
    let ro_base = if m.load_base != 0 { m.load_base } else { layout::RO_DEFAULT };
    let ro_size = align_page(max_of(m.image_size, len32(m.ro.len())));
    let rw_size = align_page(max_of(m.rw_size, len32(m.rw.len())) + 0x10000);
    let rw_base = if m.load_base != 0 { rw_place(m) } else { layout::RW_BASE };
    Placement { ro_base, ro_size, rw_base, rw_size }
}

} // verus!

verus! {

/// Whether address `a` lies in one of the free ranges.
pub open spec fn in_free(fl: Seq<(u32, u32)>, a: int) -> bool {
    exists|i: int| 0 <= i < fl.len() && #[trigger] fl[i].0 <= a < fl[i].0 + fl[i].1
}

/// Every range of the list ends within 32-bit addresses.
pub open spec fn ranges_fit(fl: Seq<(u32, u32)>) -> bool {
    forall|i: int| 0 <= i < fl.len() ==> #[trigger] fl[i].0 + fl[i].1 <= 0xFFFF_FFFF
}

proof fn lemma_insert_union(fl: Seq<(u32, u32)>, i: int, r: (u32, u32), a: int)
    requires
        0 <= i <= fl.len(),
    ensures
        in_free(fl.insert(i, r), a) <==> (in_free(fl, a) || r.0 <= a < r.0 + r.1),
{
    let g = fl.insert(i, r);
    if in_free(g, a) {
        let k = choose|k: int| 0 <= k < g.len() && #[trigger] g[k].0 <= a < g[k].0 + g[k].1;
        if k < i {
            assert(fl[k] == g[k]);
        } else if k > i {
            assert(fl[k - 1] == g[k]);
        }
    }
    if in_free(fl, a) {
        let k = choose|k: int| 0 <= k < fl.len() && #[trigger] fl[k].0 <= a < fl[k].0 + fl[k].1;
        if k < i {
            assert(g[k] == fl[k]);
        } else {
            assert(g[k + 1] == fl[k]);
        }
    }
    if r.0 <= a < r.0 + r.1 {
        assert(g[i] == r);
    }
}

proof fn lemma_merge_next_union(fl: Seq<(u32, u32)>, j: int, a: int)
    requires
        0 <= j,
        ranges_fit(fl),
    ensures
        in_free(merge_next(fl, j), a) <==> in_free(fl, a),
        ranges_fit(merge_next(fl, j)),
{
    if j + 1 < fl.len() && fl[j].0 + fl[j].1 == fl[j + 1].0 {
        let g = merge_next(fl, j);
        let m = (fl[j].0, (fl[j].1 + fl[j + 1].1) as u32);
        assert(fl[j + 1].0 + fl[j + 1].1 <= 0xFFFF_FFFF);
        assert(g.len() == fl.len() - 1);
        assert(g[j] == m);
        assert forall|k: int| 0 <= k < g.len() implies (k < j ==> g[k] == fl[k]) && (k > j ==> g[k] == fl[k + 1]) by {}
        if in_free(g, a) {
            let k = choose|k: int| 0 <= k < g.len() && #[trigger] g[k].0 <= a < g[k].0 + g[k].1;
            if k < j {
                assert(fl[k].0 <= a < fl[k].0 + fl[k].1);
            } else if k > j {
                assert(fl[k + 1].0 <= a < fl[k + 1].0 + fl[k + 1].1);
            } else if a < fl[j].0 + fl[j].1 {
                assert(fl[j].0 <= a < fl[j].0 + fl[j].1);
            } else {
                assert(fl[j + 1].0 <= a < fl[j + 1].0 + fl[j + 1].1);
            }
        }
        if in_free(fl, a) {
            let k = choose|k: int| 0 <= k < fl.len() && #[trigger] fl[k].0 <= a < fl[k].0 + fl[k].1;
            if k < j {
                assert(g[k].0 <= a < g[k].0 + g[k].1);
            } else if k > j + 1 {
                assert(g[k - 1].0 <= a < g[k - 1].0 + g[k - 1].1);
            } else {
                assert(g[j].0 <= a < g[j].0 + g[j].1);
            }
        }
        assert forall|k: int| 0 <= k < g.len() implies #[trigger] g[k].0 + g[k].1 <= 0xFFFF_FFFF by {
            if k > j {
                assert(g[k] == fl[k + 1]);
            }
        }
    }
}

proof fn lemma_merge_prev_union(fl: Seq<(u32, u32)>, j: int, a: int)
    requires
        0 <= j,
        ranges_fit(fl),
    ensures
        in_free(merge_prev(fl, j), a) <==> in_free(fl, a),
        ranges_fit(merge_prev(fl, j)),
{
    if 0 < j < fl.len() && fl[j - 1].0 + fl[j - 1].1 == fl[j].0 {
        assert(merge_prev(fl, j) == merge_next(fl, j - 1));
        lemma_merge_next_union(fl, j - 1, a);
    }
}

/// Freeing a live block: a block ending at the top of the heap lowers the top to
/// it and leaves the free list alone; any other block leaves the top alone and its
/// range joins the free ranges, which stay in order, apart and not touching. Either
/// way the heap stays well formed.
pub proof fn free_law(v: BumpView, p: u32)
    requires
        heap_wf(v),
        v.live.contains_key(p),
    ensures
        ({
            let n = v.live[p].0;
            let v2 = spec_free(v, p);
            &&& heap_wf(v2)
            &&& free_sorted(v2.free)
            &&& !v2.live.contains_key(p)
            &&& p + n == v.cur ==> v2.cur == p && v2.free == v.free
            &&& p + n != v.cur ==> v2.cur == v.cur
                && (forall|a: int| in_free(v2.free, a) <==> (in_free(v.free, a) || p <= a < p + n))
        }),
{
    lemma_free_wf(v, p);
    let n = v.live[p].0;
    assert(range_ok(v, p, n));
    if p + n != v.cur {
        let i = insert_pos(v.free, p, 0);
        lemma_insert_pos(v.free, p, 0);
        let g0 = v.free.insert(i, (p, n));
        assert forall|k: int| 0 <= k < g0.len() implies #[trigger] g0[k].0 + g0[k].1 <= 0xFFFF_FFFF by {
            if k < i {
                assert(g0[k] == v.free[k]);
                assert(range_ok(v, v.free[k].0, v.free[k].1));
            } else if k > i {
                assert(g0[k] == v.free[k - 1]);
                assert(range_ok(v, v.free[k - 1].0, v.free[k - 1].1));
            }
        }
        let g1 = merge_next(g0, i);
        assert forall|a: int| in_free(spec_free(v, p).free, a) <==> (in_free(v.free, a) || p <= a < p + n) by {
            lemma_insert_union(v.free, i, (p, n), a);
            lemma_merge_next_union(g0, i, a);
            lemma_merge_prev_union(g1, i, a);
        }
    }
}

} // verus!
