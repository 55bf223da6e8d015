//! Data packages: which resource entries a package load sees, and the tables that
//! lay those entries out in the emulated memory.
use vstd::prelude::*;
use crate::container::{ResArchive, ResEntry, SpecEntry};
use crate::session::chars_of;
use crate::strs::{copy_string, str_eq};
use crate::mem::{Bump, BumpView, heap_wf, spec_alloc, alloc_fresh_block, align_up_bounds};

verus! {

/// A resource entry as a name and its bytes.
pub open spec fn pair_of(e: SpecEntry) -> (Seq<char>, Seq<u8>) {
    (e.name, e.data)
}

/// The entries of an archive as names and bytes, in order.
pub open spec fn flat(es: Seq<SpecEntry>) -> Seq<(Seq<char>, Seq<u8>)> {
    es.map_values(|e: SpecEntry| pair_of(e))
}

/// The mathematical value of a list of named byte strings.
pub open spec fn pairs_view(s: Seq<(String, Vec<u8>)>) -> Seq<(Seq<char>, Seq<u8>)> {
    s.map_values(|p: (String, Vec<u8>)| (p.0@, p.1@))
}

/// The index of the first entry named `name` in `acc` from `i` on, or the length of
/// `acc` when there is none.
pub open spec fn name_index(acc: Seq<(Seq<char>, Seq<u8>)>, name: Seq<char>, i: int) -> int
    decreases acc.len() - i,
{
    if i < 0 || i >= acc.len() {
        acc.len() as int
    } else if acc[i].0 == name {
        i
    } else {
        name_index(acc, name, i + 1)
    }
}

/// `acc` with the entries `es` added in order: an entry whose name is already there
/// replaces that entry in place, any other is appended.
pub open spec fn merge_into(acc: Seq<(Seq<char>, Seq<u8>)>, es: Seq<(Seq<char>, Seq<u8>)>) -> Seq<(Seq<char>, Seq<u8>)>
    decreases es.len(),
{
    if es.len() == 0 {
        acc
    } else {
        let e = es[0];
        let i = name_index(acc, e.0, 0);
        let acc2 = if i < acc.len() { acc.update(i, e) } else { acc.push(e) };
        merge_into(acc2, es.drop_first())
    }
}

/// No two entries share a name.
pub open spec fn names_unique(acc: Seq<(Seq<char>, Seq<u8>)>) -> bool {
    forall|i: int, j: int| 0 <= i < j < acc.len() ==> #[trigger] acc[i].0 != #[trigger] acc[j].0
}

/// Whether `c` separates the parts of a path.
pub open spec fn is_sep(c: char) -> bool {
    c == '/' || c == '\\'
}

/// The position of the last separator among the first `n` characters, or -1.
pub open spec fn last_sep(s: Seq<char>, n: int) -> int
    decreases n,
{
    if n <= 0 || n > s.len() {
        -1
    } else if is_sep(s[n - 1]) {
        n - 1
    } else {
        last_sep(s, n - 1)
    }
}

/// The last part of a path: what follows its last `/` or `\`.
pub open spec fn base_name(s: Seq<char>) -> Seq<char> {
    s.subrange(last_sep(s, s.len() as int) + 1, s.len() as int)
}

/// A character code with ASCII capitals taken to lower case.
pub open spec fn ascii_lower(c: char) -> int {
    if 65 <= c as u32 <= 90 { c as int + 32 } else { c as int }
}

/// Equality up to ASCII case (std's `str::eq_ignore_ascii_case`).
pub open spec fn eq_ignore_ascii_case(a: Seq<char>, b: Seq<char>) -> bool {
    a.len() == b.len() && forall|i: int| 0 <= i < a.len() ==> #[trigger] ascii_lower(a[i]) == ascii_lower(b[i])
}

/// A loaded package: its name and its entries.
pub type PkgView = (Seq<char>, Seq<(Seq<char>, Seq<u8>)>);

/// The mathematical value of the loaded packages.
pub open spec fn pkgs_view(p: Seq<(String, ResArchive)>) -> Seq<PkgView> {
    p.map_values(|x: (String, ResArchive)| (x.0@, flat(x.1@.entries)))
}

/// The index of the first package from `i` on whose name is empty (the root package),
/// or the number of packages.
pub open spec fn root_index(pk: Seq<PkgView>, i: int) -> int
    decreases pk.len() - i,
{
    if i < 0 || i >= pk.len() {
        pk.len() as int
    } else if pk[i].0.len() == 0 {
        i
    } else {
        root_index(pk, i + 1)
    }
}

/// The index of the first package from `i` on named `name`, or the number of packages.
pub open spec fn exact_index(pk: Seq<PkgView>, name: Seq<char>, i: int) -> int
    decreases pk.len() - i,
{
    if i < 0 || i >= pk.len() {
        pk.len() as int
    } else if pk[i].0 == name {
        i
    } else {
        exact_index(pk, name, i + 1)
    }
}

/// The index of the first package from `i` on with a name that equals `base` up to
/// ASCII case, or the number of packages.
pub open spec fn loose_index(pk: Seq<PkgView>, base: Seq<char>, i: int) -> int
    decreases pk.len() - i,
{
    if i < 0 || i >= pk.len() {
        pk.len() as int
    } else if pk[i].0.len() > 0 && eq_ignore_ascii_case(pk[i].0, base) {
        i
    } else {
        loose_index(pk, base, i + 1)
    }
}

/// The package a load of `name` names: one with that name, else one named like the
/// last part of the path; none for an empty name or no packages.
pub open spec fn named_index(pk: Seq<PkgView>, name: Seq<char>) -> int {
    if name.len() == 0 || pk.len() == 0 {
        pk.len() as int
    } else if exact_index(pk, name, 0) < pk.len() {
        exact_index(pk, name, 0)
    } else {
        loose_index(pk, base_name(name), 0)
    }
}

/// The cache key and the entries a package load of `name` sees: the named package's
/// entries laid over the root package's (`<comb>` key), or the named package alone
/// when there is no root (`<sub>`); with no named package, the root package
/// (`<root>`), else the module's resources (`<res>`, `fallback`).
pub open spec fn spec_pick(pk: Seq<PkgView>, fallback: Seq<(Seq<char>, Seq<u8>)>, name: Seq<char>) -> (Seq<char>, Seq<(Seq<char>, Seq<u8>)>) {
    let r = root_index(pk, 0);
    let a = named_index(pk, name);
    if a >= pk.len() {
        if r < pk.len() { ("<root>"@, pk[r].1) } else { ("<res>"@, fallback) }
    } else if r >= pk.len() {
        ("<sub>"@ + pk[a].0, pk[a].1)
    } else {
        ("<comb>"@ + pk[a].0, merge_into(Seq::empty(), pk[r].1 + pk[a].1))
    }
}

fn copy_entry(e: &ResEntry) -> (r: (String, Vec<u8>))
    ensures
        (r.0@, r.1@) == pair_of(e@),
{
    (copy_string(&e.name), vstd::slice::slice_to_vec(e.data.as_slice()))
}

/// The entries of an archive as names and bytes.
fn flat_entries(a: &ResArchive) -> (r: Vec<(String, Vec<u8>)>)
    ensures
        pairs_view(r@) == flat(a@.entries),
{
    let mut r: Vec<(String, Vec<u8>)> = Vec::new();
    let mut i: usize = 0;
    while i < a.entries.len()
        invariant
            i <= a.entries@.len(),
            pairs_view(r@) == flat(a@.entries).take(i as int),
        decreases a.entries@.len() - i,
    {
        let e = copy_entry(&a.entries[i]);
        assert(flat(a@.entries)[i as int] == pair_of(a.entries@[i as int]@));
        let ghost r0 = r@;
        r.push(e);
        assert(pairs_view(r@) =~= pairs_view(r0).push(pair_of(a.entries@[i as int]@)));
        assert(pairs_view(r@) =~= flat(a@.entries).take(i + 1));
        i = i + 1;
    }
    assert(flat(a@.entries).take(i as int) =~= flat(a@.entries));
    r
}

/// The index of the first entry named `name`, or the length.
fn find_name(v: &Vec<(String, Vec<u8>)>, name: &str) -> (r: usize)
    ensures
        r == name_index(pairs_view(v@), name@, 0),
{
    let mut i: usize = 0;
    while i < v.len()
        invariant
            i <= v@.len(),
            name_index(pairs_view(v@), name@, 0) == name_index(pairs_view(v@), name@, i as int),
        decreases v@.len() - i,
    {
        if str_eq(v[i].0.as_str(), name) {
            return i;
        }
        i = i + 1;
    }
    i
}

/// Add the entries of `a` to `out` (see `merge_into`).
fn merge_archive(out: &mut Vec<(String, Vec<u8>)>, a: &ResArchive)
    ensures
        pairs_view(final(out)@) == merge_into(pairs_view(old(out)@), flat(a@.entries)),
{
    let ghost target = merge_into(pairs_view(out@), flat(a@.entries));
    let n = a.entries.len();
    let mut k: usize = 0;
    assert(flat(a@.entries).subrange(0, n as int) =~= flat(a@.entries));
    while k < n
        invariant
            n == a.entries@.len(),
            k <= n,
            target == merge_into(pairs_view(out@), flat(a@.entries).subrange(k as int, n as int)),
        decreases n - k,
    {
        let ghost rest = flat(a@.entries).subrange(k as int, n as int);
        assert(rest.drop_first() =~= flat(a@.entries).subrange(k + 1, n as int));
        let e = copy_entry(&a.entries[k]);
        assert(rest[0] == pair_of(a.entries@[k as int]@));
        let i = find_name(out, e.0.as_str());
        let ghost acc = pairs_view(out@);
        if i < out.len() {
            out.set(i, e);
            assert(pairs_view(out@) =~= acc.update(i as int, rest[0]));
        } else {
            out.push(e);
            assert(pairs_view(out@) =~= acc.push(rest[0]));
        }
        k = k + 1;
    }
    assert(flat(a@.entries).subrange(n as int, n as int) =~= Seq::<(Seq<char>, Seq<u8>)>::empty());
}

fn lower_code(c: char) -> (r: u32)
    ensures
        r == ascii_lower(c),
{
    let v = c as u32;
    if 65 <= v && v <= 90 { v + 32 } else { v }
}

/// Equality up to ASCII case (see `eq_ignore_ascii_case`).
fn eq_ascii_ci(a: &Vec<char>, b: &Vec<char>) -> (r: bool)
    ensures
        r == eq_ignore_ascii_case(a@, b@),
{
    if a.len() != b.len() {
        return false;
    }
    let mut i: usize = 0;
    while i < a.len()
        invariant
            i <= a.len() == b.len(),
            forall|j: int| 0 <= j < i ==> #[trigger] ascii_lower(a@[j]) == ascii_lower(b@[j]),
        decreases a.len() - i,
    {
        if lower_code(a[i]) != lower_code(b[i]) {
            return false;
        }
        i = i + 1;
    }
    true
}

/// The last part of a path (see `base_name`).
fn base_of(s: &Vec<char>) -> (r: Vec<char>)
    ensures
        r@ == base_name(s@),
{
    let n = s.len();
    let mut k: usize = n;
    while k > 0 && !(s[k - 1] == '/' || s[k - 1] == '\\')
        invariant
            k <= n == s.len(),
            last_sep(s@, n as int) == last_sep(s@, k as int),
        decreases k,
    {
        k = k - 1;
    }
    let ghost from = last_sep(s@, n as int) + 1;
    assert(from == k);
    let mut r: Vec<char> = Vec::new();
    let mut i: usize = k;
    while i < n
        invariant
            k <= i <= n == s.len(),
            r@ == s@.subrange(k as int, i as int),
        decreases n - i,
    {
        r.push(s[i]);
        assert(r@ =~= s@.subrange(k as int, i + 1));
        i = i + 1;
    }
    r
}

fn root_of(pk: &Vec<(String, ResArchive)>) -> (r: usize)
    ensures
        r == root_index(pkgs_view(pk@), 0),
{
    let mut i: usize = 0;
    while i < pk.len()
        invariant
            i <= pk@.len(),
            root_index(pkgs_view(pk@), 0) == root_index(pkgs_view(pk@), i as int),
        decreases pk@.len() - i,
    {
        assert(pkgs_view(pk@)[i as int].0 == pk@[i as int].0@);
        if pk[i].0.as_str().is_empty() {
            return i;
        }
        i = i + 1;
    }
    i
}

fn exact_of(pk: &Vec<(String, ResArchive)>, name: &str) -> (r: usize)
    ensures
        r == exact_index(pkgs_view(pk@), name@, 0),
{
    let mut i: usize = 0;
    while i < pk.len()
        invariant
            i <= pk@.len(),
            exact_index(pkgs_view(pk@), name@, 0) == exact_index(pkgs_view(pk@), name@, i as int),
        decreases pk@.len() - i,
    {
        assert(pkgs_view(pk@)[i as int].0 == pk@[i as int].0@);
        if str_eq(pk[i].0.as_str(), name) {
            return i;
        }
        i = i + 1;
    }
    i
}

fn loose_of(pk: &Vec<(String, ResArchive)>, base: &Vec<char>) -> (r: usize)
    ensures
        r == loose_index(pkgs_view(pk@), base@, 0),
{
    let mut i: usize = 0;
    while i < pk.len()
        invariant
            i <= pk@.len(),
            loose_index(pkgs_view(pk@), base@, 0) == loose_index(pkgs_view(pk@), base@, i as int),
        decreases pk@.len() - i,
    {
        assert(pkgs_view(pk@)[i as int].0 == pk@[i as int].0@);
        let k = chars_of(pk[i].0.as_str());
        if k.len() > 0 && eq_ascii_ci(&k, base) {
            return i;
        }
        i = i + 1;
    }
    i
}

/// The cache key and the entries a package load of `name` sees (see `spec_pick`):
/// `packages` are the module's data packages, `res` and `icons` its resources.
pub fn pick_entries(packages: &Vec<(String, ResArchive)>, res: Option<&ResArchive>, icons: Option<&ResArchive>, name: &str) -> (r: (String, Vec<(String, Vec<u8>)>))
    ensures
        (r.0@, pairs_view(r.1@)) == spec_pick(
            pkgs_view(packages@),
            match res {
                Some(a) => flat(a@.entries),
                None => match icons {
                    Some(a) => flat(a@.entries),
                    None => Seq::empty(),
                },
            },
            name@,
        ),
{
    let ghost pk = pkgs_view(packages@);
    let root = root_of(packages);
    let nm = chars_of(name);
    let mut a: usize = packages.len();
    if nm.len() > 0 && packages.len() > 0 {
        a = exact_of(packages, name);
        if a >= packages.len() {
            let base = base_of(&nm);
            a = loose_of(packages, &base);
        }
    }
    assert(a == named_index(pk, name@));
    proof {
        lemma_root_index(pk, 0);
        lemma_exact_index(pk, name@, 0);
        lemma_loose_index(pk, base_name(name@), 0);
    }
    if a >= packages.len() {
        if root < packages.len() {
            assert(pk[root as int].1 == flat(packages@[root as int].1@.entries));
            return ("<root>".to_owned(), flat_entries(&packages[root].1));
        }
        let fb = match res {
            Some(x) => flat_entries(x),
            None => match icons {
                Some(x) => flat_entries(x),
                None => Vec::new(),
            },
        };
        assert(pairs_view(fb@) =~= match res {
            Some(x) => flat(x@.entries),
            None => match icons {
                Some(x) => flat(x@.entries),
                None => Seq::empty(),
            },
        });
        return ("<res>".to_owned(), fb);
    }
    assert(pk[a as int].0 == packages@[a as int].0@);
    assert(pk[a as int].1 == flat(packages@[a as int].1@.entries));
    if root >= packages.len() {
        let mut key = "<sub>".to_owned();
        key.append(packages[a].0.as_str());
        return (key, flat_entries(&packages[a].1));
    }
    assert(pk[root as int].1 == flat(packages@[root as int].1@.entries));
    let mut out: Vec<(String, Vec<u8>)> = Vec::new();
    assert(pairs_view(out@) =~= Seq::<(Seq<char>, Seq<u8>)>::empty());
    merge_archive(&mut out, &packages[root].1);
    merge_archive(&mut out, &packages[a].1);
    proof {
        lemma_merge_concat(Seq::empty(), pk[root as int].1, pk[a as int].1);
    }
    let mut key = "<comb>".to_owned();
    key.append(packages[a].0.as_str());
    (key, out)
}

/// Merging two lists of entries one after the other is merging their concatenation.
proof fn lemma_merge_concat(acc: Seq<(Seq<char>, Seq<u8>)>, xs: Seq<(Seq<char>, Seq<u8>)>, ys: Seq<(Seq<char>, Seq<u8>)>)
    ensures
        merge_into(merge_into(acc, xs), ys) == merge_into(acc, xs + ys),
    decreases xs.len(),
{
    if xs.len() > 0 {
        let e = xs[0];
        let i = name_index(acc, e.0, 0);
        let acc2 = if i < acc.len() { acc.update(i, e) } else { acc.push(e) };
        lemma_merge_concat(acc2, xs.drop_first(), ys);
        assert((xs + ys).drop_first() =~= xs.drop_first() + ys);
        assert((xs + ys)[0] == e);
    } else {
        assert(xs + ys =~= ys);
    }
}


// ---------------------------------------------------------------------------
// Laying a package out in memory

/// A write into the emulated memory: bytes at an address, or a 32-bit word (in the
/// machine's byte order) at an address.
#[derive(Debug, Clone, PartialEq, Eq)]
pub enum MemWrite {
    Bytes(u32, Vec<u8>),
    Word(u32, u32),
}

/// The mathematical value of a memory write.
pub enum WriteView {
    Bytes(u32, Seq<u8>),
    Word(u32, u32),
}

impl View for MemWrite {
    type V = WriteView;

    open spec fn view(&self) -> WriteView {
        match self {
            MemWrite::Bytes(a, b) => WriteView::Bytes(*a, b@),
            MemWrite::Word(a, w) => WriteView::Word(*a, *w),
        }
    }
}

/// The mathematical value of a list of memory writes.
pub open spec fn writes_view(s: Seq<MemWrite>) -> Seq<WriteView> {
    s.map_values(|w: MemWrite| w@)
}

/// The data of all entries, one after the other.
pub open spec fn blob(ents: Seq<(Seq<char>, Seq<u8>)>) -> Seq<u8>
    decreases ents.len(),
{
    if ents.len() == 0 {
        Seq::empty()
    } else {
        blob(ents.drop_last()) + ents.last().1
    }
}

/// Where the data of entry `i` starts in the blob.
pub open spec fn data_offset(ents: Seq<(Seq<char>, Seq<u8>)>, i: int) -> int {
    blob(ents.take(i)).len() as int
}

/// A heap allocation that yields 0 when it fails.
pub open spec fn heap_alloc(v: BumpView, n: u32, tag: Seq<char>) -> (BumpView, u32) {
    let (v2, r) = spec_alloc(v, n, tag, false);
    (v2, match r { Ok(p) => p, Err(_) => 0u32 })
}

/// The name strings of the first `i` entries allocated one by one, and the writes
/// that fill the name and offset tables for them: each name (zero-terminated, when
/// its block was had), its table slot, and its data offset.
pub open spec fn name_steps(v: BumpView, ents: Seq<(Seq<char>, Seq<u8>)>, names_tbl: u32, offs_tbl: u32, i: int) -> (BumpView, Seq<WriteView>)
    decreases i,
{
    if i <= 0 || i > ents.len() {
        (v, Seq::empty())
    } else {
        let (v1, w) = name_steps(v, ents, names_tbl, offs_tbl, i - 1);
        let nm = vstd::utf8::encode_utf8(ents[i - 1].0);
        let (v2, p) = heap_alloc(v1, (nm.len() + 1) as u32, "dp_name"@);
        let w1 = if p != 0 { w.push(WriteView::Bytes(p, nm.push(0u8))) } else { w };
        (v2, w1.push(WriteView::Word((names_tbl + 4 * (i - 1)) as u32, p)).push(
            WriteView::Word((offs_tbl + 4 * (i - 1)) as u32, data_offset(ents, i - 1) as u32),
        ))
    }
}

/// Lay out entries in the heap: the data blob (`dp_fileData`), the name table
/// (`dp_names`), the offset table (`dp_offsets`, one slot more than entries, the last
/// holding the total size), and each name; failed allocations give address 0. Yields
/// the heap after, the tables (name table, offset table, data, data size) and the
/// memory writes that fill them.
pub open spec fn spec_lay_out(v: BumpView, ents: Seq<(Seq<char>, Seq<u8>)>) -> (BumpView, (u32, u32, u32, u32), Seq<WriteView>) {
    let b = blob(ents);
    let n = ents.len() as int;
    let (v1, data_p) = heap_alloc(v, (if b.len() > 1 { b.len() as int } else { 1 }) as u32, "dp_fileData"@);
    let w0: Seq<WriteView> = if data_p != 0 && b.len() > 0 { seq![WriteView::Bytes(data_p, b)] } else { Seq::empty() };
    let (v2, names_tbl) = heap_alloc(v1, ((if n > 1 { n } else { 1 }) * 4) as u32, "dp_names"@);
    let (v3, offs_tbl) = heap_alloc(v2, ((n + 1) * 4) as u32, "dp_offsets"@);
    let (v4, w1) = name_steps(v3, ents, names_tbl, offs_tbl, n);
    (
        v4,
        (names_tbl, offs_tbl, data_p, b.len() as u32),
        w0 + w1.push(WriteView::Word((offs_tbl + 4 * n) as u32, b.len() as u32)),
    )
}

/// The sizes a layout needs to stay within 32 bits: both tables, the data and each
/// name.
pub open spec fn fits_u32(ents: Seq<(Seq<char>, Seq<u8>)>) -> bool {
    &&& (ents.len() + 1) * 4 <= u32::MAX
    &&& blob(ents).len() <= u32::MAX
    &&& forall|i: int| 0 <= i < ents.len() ==> vstd::utf8::encode_utf8(#[trigger] ents[i].0).len() < u32::MAX
}

/// A block the heap hands out lies below 4 GiB.
proof fn lemma_heap_alloc(v: BumpView, n: u32, tag: Seq<char>)
    requires
        heap_wf(v),
    ensures
        heap_wf(heap_alloc(v, n, tag).0),
        heap_alloc(v, n, tag).1 == 0 || heap_alloc(v, n, tag).1 as int + n <= 0xFFFF_FFFF,
{
    crate::mem::lemma_alloc_wf(v, n, tag, false);
    if n <= Bump::MAX_ALLOC && spec_alloc(v, n, tag, true).1 is Ok {
        alloc_fresh_block(v, n, tag);
        align_up_bounds(if n == 0 { 1 } else { n as int }, 16);
    }
}

fn alloc_or_zero(heap: &mut Bump, n: u32, tag: &str) -> (p: u32)
    requires
        old(heap).wf(),
    ensures
        final(heap).wf(),
        (final(heap)@, p) == heap_alloc(old(heap)@, n, tag@),
        p == 0 || p as int + n <= 0xFFFF_FFFF,
{
    proof {
        lemma_heap_alloc(heap@, n, tag@);
    }
    match heap.allocate(n, tag, false) {
        Ok(p) => p,
        Err(_) => 0,
    }
}

proof fn lemma_blob_step(ents: Seq<(Seq<char>, Seq<u8>)>, i: int)
    requires
        0 <= i < ents.len(),
    ensures
        blob(ents.take(i + 1)) == blob(ents.take(i)) + ents[i].1,
{
    assert(ents.take(i + 1).drop_last() =~= ents.take(i));
}

proof fn lemma_blob_prefix(ents: Seq<(Seq<char>, Seq<u8>)>, i: int)
    requires
        0 <= i <= ents.len(),
    ensures
        blob(ents.take(i)).len() <= blob(ents).len(),
    decreases ents.len() - i,
{
    if i < ents.len() {
        lemma_blob_prefix(ents, i + 1);
        lemma_blob_step(ents, i);
    } else {
        assert(ents.take(i) =~= ents);
    }
}

/// Lay entries out in the heap (see `spec_lay_out`).
fn lay_out(heap: &mut Bump, ents: &Vec<(String, Vec<u8>)>) -> (r: ((u32, u32, u32, u32), Vec<MemWrite>))
    requires
        old(heap).wf(),
        fits_u32(pairs_view(ents@)),
    ensures
        final(heap).wf(),
        (final(heap)@, r.0, writes_view(r.1@)) == spec_lay_out(old(heap)@, pairs_view(ents@)),
{
    let ghost e = pairs_view(ents@);
    let ghost v0 = heap@;
    let n = ents.len();
    let mut b: Vec<u8> = Vec::new();
    let mut i: usize = 0;
    while i < n
        invariant
            n == ents@.len() == e.len(),
            e == pairs_view(ents@),
            i <= n,
            b@ == blob(e.take(i as int)),
        decreases n - i,
    {
        let mut c = vstd::slice::slice_to_vec(ents[i].1.as_slice());
        proof {
            lemma_blob_step(e, i as int);
        }
        b.append(&mut c);
        i = i + 1;
    }
    assert(e.take(n as int) =~= e);
    let bl = b.len() as u32;
    let data_p = alloc_or_zero(heap, if bl > 1 { bl } else { 1 }, "dp_fileData");
    let mut w: Vec<MemWrite> = Vec::new();
    if data_p != 0 && b.len() > 0 {
        w.push(MemWrite::Bytes(data_p, b));
    }
    let ghost w0 = writes_view(w@);
    assert(w0 =~= (if data_p != 0 && blob(e).len() > 0 { seq![WriteView::Bytes(data_p, blob(e))] } else { Seq::<WriteView>::empty() }));
    let n32 = n as u32;
    let names_tbl = alloc_or_zero(heap, (if n32 > 1 { n32 } else { 1 }) * 4, "dp_names");
    let offs_tbl = alloc_or_zero(heap, (n32 + 1) * 4, "dp_offsets");
    let ghost v3 = heap@;
    let mut cur: u32 = 0;
    let mut i: usize = 0;
    while i < n
        invariant
            n == ents@.len() == e.len(),
            n32 == n,
            e == pairs_view(ents@),
            fits_u32(e),
            i <= n,
            heap.wf(),
            names_tbl == 0 || names_tbl as int + (if n > 1 { n as int } else { 1 }) * 4 <= 0xFFFF_FFFF,
            offs_tbl == 0 || offs_tbl as int + (n + 1) * 4 <= 0xFFFF_FFFF,
            cur as int == data_offset(e, i as int),
            (heap@, writes_view(w@)) == ({
                let (v, ws) = name_steps(v3, e, names_tbl, offs_tbl, i as int);
                (v, w0 + ws)
            }),
        decreases n - i,
    {
        let bytes = ents[i].0.as_str().as_bytes();
        assert(e[i as int].0 == ents@[i as int].0@);
        let p = alloc_or_zero(heap, bytes.len() as u32 + 1, "dp_name");
        let ghost wb = writes_view(w@);
        if p != 0 {
            let mut v = vstd::slice::slice_to_vec(bytes);
            v.push(0);
            w.push(MemWrite::Bytes(p, v));
        }
        let ghost wm = writes_view(w@);
        w.push(MemWrite::Word(names_tbl + (i as u32) * 4, p));
        w.push(MemWrite::Word(offs_tbl + (i as u32) * 4, cur));
        proof {
            assert(writes_view(w@) =~= wm.push(WriteView::Word((names_tbl + 4 * i) as u32, p)).push(
                WriteView::Word((offs_tbl + 4 * i) as u32, cur)));
            if p != 0 {
                assert(wm =~= wb.push(WriteView::Bytes(p, vstd::utf8::encode_utf8(e[i as int].0).push(0u8))));
            }
            lemma_blob_step(e, i as int);
            lemma_blob_prefix(e, i + 1);
        }
        cur = cur + ents[i].1.len() as u32;
        i = i + 1;
    }
    proof {
        lemma_blob_prefix(e, n as int);
        assert(e.take(n as int) =~= e);
    }
    let ghost wl = writes_view(w@);
    w.push(MemWrite::Word(offs_tbl + n32 * 4, cur));
    proof {
        let (v4, w1) = name_steps(v3, e, names_tbl, offs_tbl, n as int);
        assert(cur == blob(e).len());
        assert(wl == w0 + w1);
        assert(writes_view(w@) =~= wl.push(WriteView::Word((offs_tbl + n32 * 4) as u32, cur)));
        assert((offs_tbl + n32 * 4) as u32 == (offs_tbl + 4 * n) as u32);
        assert(writes_view(w@) =~= w0 + w1.push(WriteView::Word((offs_tbl + 4 * n) as u32, blob(e).len() as u32)));
        assert(heap@ == v4);
    }
    ((names_tbl, offs_tbl, data_p, cur), w)
}


/// The tables laid out for a package: name table, offset table, data, data size.
pub type Tables = (u32, u32, u32, u32);

/// The mathematical value of the table cache.
pub open spec fn cache_view(c: Seq<(String, Tables)>) -> Seq<(Seq<char>, Tables)> {
    c.map_values(|x: (String, Tables)| (x.0@, x.1))
}

/// The index of the first cache entry from `i` on kept under `key`, or the length.
pub open spec fn cache_index(c: Seq<(Seq<char>, Tables)>, key: Seq<char>, i: int) -> int
    decreases c.len() - i,
{
    if i < 0 || i >= c.len() {
        c.len() as int
    } else if c[i].0 == key {
        i
    } else {
        cache_index(c, key, i + 1)
    }
}

/// Field offsets of a data package structure.
pub const FILE_NUM: u32 = 0x08;
pub const FILE_NAME_TABLE: u32 = 0x0c;
pub const FILE_OFFSET_TABLE: u32 = 0x10;
pub const FILE_DATA: u32 = 0x18;
pub const DATA_SIZE: u32 = 0x60;
pub const IS_LOADED: u32 = 0x00;

/// The writes that point the package structure at `pkg` to its tables: the file count
/// (16 bits, little-endian), the tables, the data size, and the loaded flag.
pub open spec fn pkg_writes(pkg: u32, n: u32, t: Tables) -> Seq<WriteView> {
    seq![
        WriteView::Bytes((pkg + FILE_NUM) as u32, seq![(n % 256) as u8, ((n / 256) % 256) as u8]),
        WriteView::Word((pkg + FILE_NAME_TABLE) as u32, t.0),
        WriteView::Word((pkg + FILE_OFFSET_TABLE) as u32, t.1),
        WriteView::Word((pkg + FILE_DATA) as u32, t.2),
        WriteView::Word((pkg + DATA_SIZE) as u32, t.3),
        WriteView::Bytes((pkg + IS_LOADED) as u32, seq![1u8]),
    ]
}

/// Load entries into the package structure at `pkg` under cache key `key`: tables
/// kept under the key are reused; otherwise the entries are laid out afresh (see
/// `spec_lay_out`) and their tables kept. Yields the heap and the cache after, and
/// the memory writes.
pub open spec fn spec_materialize(v: BumpView, cache: Seq<(Seq<char>, Tables)>, pkg: u32, key: Seq<char>, ents: Seq<(Seq<char>, Seq<u8>)>) -> (BumpView, Seq<(Seq<char>, Tables)>, Seq<WriteView>) {
    let i = cache_index(cache, key, 0);
    let n = ents.len() as u32;
    if 0 <= i < cache.len() {
        (v, cache, pkg_writes(pkg, n, cache[i].1))
    } else {
        let (v2, t, w) = spec_lay_out(v, ents);
        (v2, cache.push((key, t)), w + pkg_writes(pkg, n, t))
    }
}

fn find_cached(cache: &Vec<(String, Tables)>, key: &str) -> (r: usize)
    ensures
        r == cache_index(cache_view(cache@), key@, 0),
{
    let mut i: usize = 0;
    while i < cache.len()
        invariant
            i <= cache@.len(),
            cache_index(cache_view(cache@), key@, 0) == cache_index(cache_view(cache@), key@, i as int),
        decreases cache@.len() - i,
    {
        assert(cache_view(cache@)[i as int].0 == cache@[i as int].0@);
        if str_eq(cache[i].0.as_str(), key) {
            return i;
        }
        i = i + 1;
    }
    i
}

/// Load `ents` into the package structure at `pkg` (see `spec_materialize`); returns
/// the number of entries and the memory writes to make, in order.
pub fn materialize(heap: &mut Bump, cache: &mut Vec<(String, Tables)>, pkg: u32, key: &str, ents: &Vec<(String, Vec<u8>)>) -> (r: (u32, Vec<MemWrite>))
    requires
        old(heap).wf(),
        fits_u32(pairs_view(ents@)),
        pkg + DATA_SIZE + 4 <= u32::MAX,
    ensures
        final(heap).wf(),
        r.0 == ents@.len(),
        (final(heap)@, cache_view(final(cache)@), writes_view(r.1@)) == spec_materialize(
            old(heap)@,
            cache_view(old(cache)@),
            pkg,
            key@,
            pairs_view(ents@),
        ),
{
    let n = ents.len() as u32;
    let i = find_cached(cache, key);
    let ghost c0 = cache_view(cache@);
    let (t, mut w) = if i < cache.len() {
        (cache[i].1, Vec::new())
    } else {
        let (t, w) = lay_out(heap, ents);
        cache.push((copy_string(&key.to_string()), t));
        assert(cache_view(cache@) =~= c0.push((key@, t)));
        (t, w)
    };
    let ghost wb = writes_view(w@);
    let lo = (n % 256) as u8;
    let hi = ((n / 256) % 256) as u8;
    let mut count: Vec<u8> = Vec::new();
    count.push(lo);
    count.push(hi);
    let mut flag: Vec<u8> = Vec::new();
    flag.push(1u8);
    assert(count@ =~= seq![(n % 256) as u8, ((n / 256) % 256) as u8]);
    assert(flag@ =~= seq![1u8]);
    w.push(MemWrite::Bytes(pkg + FILE_NUM, count));
    w.push(MemWrite::Word(pkg + FILE_NAME_TABLE, t.0));
    w.push(MemWrite::Word(pkg + FILE_OFFSET_TABLE, t.1));
    w.push(MemWrite::Word(pkg + FILE_DATA, t.2));
    w.push(MemWrite::Word(pkg + DATA_SIZE, t.3));
    w.push(MemWrite::Bytes(pkg + IS_LOADED, flag));
    assert(writes_view(w@) =~= wb + pkg_writes(pkg, n, t));
    (n, w)
}

/// Loading a package under a key that was loaded before allocates nothing and points
/// the structure at the tables made the first time.
pub proof fn reload_reuses_tables(
    v: BumpView,
    cache: Seq<(Seq<char>, Tables)>,
    pkg1: u32,
    pkg2: u32,
    key: Seq<char>,
    ents1: Seq<(Seq<char>, Seq<u8>)>,
    ents2: Seq<(Seq<char>, Seq<u8>)>,
)
    ensures
        ({
            let (v1, c1, w1) = spec_materialize(v, cache, pkg1, key, ents1);
            let (v2, c2, w2) = spec_materialize(v1, c1, pkg2, key, ents2);
            let i = cache_index(c1, key, 0);
            &&& 0 <= i < c1.len()
            &&& v2 == v1
            &&& c2 == c1
            &&& w2 == pkg_writes(pkg2, ents2.len() as u32, c1[i].1)
            &&& cache_index(cache, key, 0) >= cache.len() ==> c1[i].1 == spec_lay_out(v, ents1).1
        }),
{
    lemma_cache_index(cache, key, 0);
    let i = cache_index(cache, key, 0);
    if i >= cache.len() {
        let c1 = cache.push((key, spec_lay_out(v, ents1).1));
        lemma_cache_index(c1, key, 0);
        lemma_cache_index_prefix(cache, c1, key, 0);
    }
    let c1 = spec_materialize(v, cache, pkg1, key, ents1).1;
    lemma_cache_index(c1, key, 0);
}

proof fn lemma_cache_index(c: Seq<(Seq<char>, Tables)>, key: Seq<char>, i: int)
    requires
        0 <= i <= c.len(),
    ensures
        i <= cache_index(c, key, i) <= c.len(),
        cache_index(c, key, i) < c.len() ==> c[cache_index(c, key, i)].0 == key,
        forall|j: int| i <= j < cache_index(c, key, i) ==> #[trigger] c[j].0 != key,
    decreases c.len() - i,
{
    if i < c.len() && c[i].0 != key {
        lemma_cache_index(c, key, i + 1);
    }
}

/// A key missing from `c` is found at the end of `c` with it appended.
proof fn lemma_cache_index_prefix(c: Seq<(Seq<char>, Tables)>, c1: Seq<(Seq<char>, Tables)>, key: Seq<char>, i: int)
    requires
        0 <= i <= c.len(),
        c1.len() == c.len() + 1,
        forall|j: int| 0 <= j < c.len() ==> c1[j] == c[j],
        c1[c.len() as int].0 == key,
        cache_index(c, key, i) == c.len(),
    ensures
        cache_index(c1, key, i) == c.len(),
    decreases c.len() - i,
{
    if i < c.len() {
        lemma_cache_index_prefix(c, c1, key, i + 1);
    }
}

/// Where the search for a name stops: at the first entry with that name, or at the end.
proof fn lemma_name_index(acc: Seq<(Seq<char>, Seq<u8>)>, name: Seq<char>, i: int)
    requires
        0 <= i <= acc.len(),
    ensures
        i <= name_index(acc, name, i) <= acc.len(),
        name_index(acc, name, i) < acc.len() ==> acc[name_index(acc, name, i)].0 == name,
        forall|j: int| i <= j < name_index(acc, name, i) ==> #[trigger] acc[j].0 != name,
    decreases acc.len() - i,
{
    if i < acc.len() && acc[i].0 != name {
        lemma_name_index(acc, name, i + 1);
    }
}

/// Merging entries into a list without repeated names gives a list without repeated
/// names.
pub proof fn merge_keeps_names_unique(acc: Seq<(Seq<char>, Seq<u8>)>, es: Seq<(Seq<char>, Seq<u8>)>)
    requires
        names_unique(acc),
    ensures
        names_unique(merge_into(acc, es)),
    decreases es.len(),
{
    if es.len() > 0 {
        let e = es[0];
        let i = name_index(acc, e.0, 0);
        lemma_name_index(acc, e.0, 0);
        let acc2 = if i < acc.len() { acc.update(i, e) } else { acc.push(e) };
        assert forall|x: int, y: int| 0 <= x < y < acc2.len() implies #[trigger] acc2[x].0 != #[trigger] acc2[y].0 by {
            if i < acc.len() {
                assert(acc2[x].0 == acc[x].0 && acc2[y].0 == acc[y].0);
            } else if y == acc.len() {
                assert(acc[x].0 != e.0);
            } else {
                assert(acc2[x] == acc[x] && acc2[y] == acc[y]);
            }
        }
        merge_keeps_names_unique(acc2, es.drop_first());
    }
}

/// A package load sees each entry name once.
pub proof fn picked_names_unique(pk: Seq<PkgView>, fallback: Seq<(Seq<char>, Seq<u8>)>, name: Seq<char>)
    requires
        forall|i: int| 0 <= i < pk.len() ==> names_unique(#[trigger] pk[i].1),
        names_unique(fallback),
    ensures
        names_unique(spec_pick(pk, fallback, name).1),
{
    let r = root_index(pk, 0);
    let a = named_index(pk, name);
    lemma_root_index(pk, 0);
    lemma_exact_index(pk, name, 0);
    lemma_loose_index(pk, base_name(name), 0);
    if a < pk.len() && r < pk.len() {
        merge_keeps_names_unique(Seq::empty(), pk[r].1 + pk[a].1);
    } else if a < pk.len() {
        assert(names_unique(pk[a].1));
    } else if r < pk.len() {
        assert(names_unique(pk[r].1));
    }
}

proof fn lemma_exact_index(pk: Seq<PkgView>, name: Seq<char>, i: int)
    requires
        0 <= i <= pk.len(),
    ensures
        i <= exact_index(pk, name, i) <= pk.len(),
        exact_index(pk, name, i) < pk.len() ==> pk[exact_index(pk, name, i)].0 == name,
    decreases pk.len() - i,
{
    if i < pk.len() && pk[i].0 != name {
        lemma_exact_index(pk, name, i + 1);
    }
}

proof fn lemma_loose_index(pk: Seq<PkgView>, base: Seq<char>, i: int)
    requires
        0 <= i <= pk.len(),
    ensures
        i <= loose_index(pk, base, i) <= pk.len(),
    decreases pk.len() - i,
{
    if i < pk.len() && !(pk[i].0.len() > 0 && eq_ignore_ascii_case(pk[i].0, base)) {
        lemma_loose_index(pk, base, i + 1);
    }
}

proof fn lemma_root_index(pk: Seq<PkgView>, i: int)
    requires
        0 <= i <= pk.len(),
    ensures
        i <= root_index(pk, i) <= pk.len(),
        root_index(pk, i) < pk.len() ==> pk[root_index(pk, i)].0.len() == 0,
    decreases pk.len() - i,
{
    if i < pk.len() && pk[i].0.len() != 0 {
        lemma_root_index(pk, i + 1);
    }
}

} // verus!

verus! {

/// The total length of the data of the first `i` entries.
pub open spec fn len_sum(ents: Seq<(Seq<char>, Seq<u8>)>, i: int) -> int
    decreases i,
{
    if i <= 0 { 0 } else { len_sum(ents, i - 1) + ents[i - 1].1.len() }
}

proof fn lemma_blob_take(ents: Seq<(Seq<char>, Seq<u8>)>, i: int)
    requires
        0 <= i <= ents.len(),
    ensures
        blob(ents.take(i)).len() == len_sum(ents, i),
    decreases i,
{
    if i > 0 {
        lemma_blob_take(ents, i - 1);
        assert(ents.take(i).drop_last() =~= ents.take(i - 1));
    }
}

/// The offset table of a loaded package: entry `i`'s data starts at the sum of the
/// lengths of the entries before it, and the last slot holds the total.
pub proof fn offsets_are_prefix_sums(ents: Seq<(Seq<char>, Seq<u8>)>, i: int)
    requires
        0 <= i <= ents.len(),
    ensures
        data_offset(ents, i) == len_sum(ents, i),
        blob(ents).len() == len_sum(ents, ents.len() as int),
{
    lemma_blob_take(ents, i);
    lemma_blob_take(ents, ents.len() as int);
    assert(ents.take(ents.len() as int) =~= ents);
}

/// No key occurs twice in the table cache.
pub open spec fn keys_unique(c: Seq<(Seq<char>, Tables)>) -> bool {
    forall|i: int, j: int| 0 <= i < j < c.len() ==> #[trigger] c[i].0 != #[trigger] c[j].0
}

/// Loading a package keeps each cache key once.
pub proof fn materialize_keeps_keys_unique(v: BumpView, cache: Seq<(Seq<char>, Tables)>, pkg: u32, key: Seq<char>, ents: Seq<(Seq<char>, Seq<u8>)>)
    requires
        keys_unique(cache),
    ensures
        keys_unique(spec_materialize(v, cache, pkg, key, ents).1),
{
    lemma_cache_index(cache, key, 0);
}

/// The data of the last entry named `x` in `es`.
pub open spec fn last_data(es: Seq<(Seq<char>, Seq<u8>)>, x: Seq<char>) -> Option<Seq<u8>>
    decreases es.len(),
{
    if es.len() == 0 {
        None
    } else {
        match last_data(es.drop_first(), x) {
            Some(d) => Some(d),
            None => if es[0].0 == x { Some(es[0].1) } else { None },
        }
    }
}

/// Merging entries into a list without repeated names keeps the list's names in
/// place and adds the new ones after them; each name carries the data of its last
/// entry among those merged in, or else keeps its own.
pub proof fn merge_law(acc: Seq<(Seq<char>, Seq<u8>)>, es: Seq<(Seq<char>, Seq<u8>)>)
    requires
        names_unique(acc),
    ensures
        ({
            let r = merge_into(acc, es);
            &&& acc.len() <= r.len()
            &&& forall|k: int| 0 <= k < acc.len() ==> #[trigger] r[k].0 == acc[k].0
            &&& forall|k: int| 0 <= k < r.len() ==> match last_data(es, (#[trigger] r[k]).0) {
                Some(d) => r[k].1 == d,
                None => k < acc.len() && r[k] == acc[k],
            }
        }),
    decreases es.len(),
{
    if es.len() > 0 {
        let e = es[0];
        let rest = es.drop_first();
        let i = name_index(acc, e.0, 0);
        lemma_name_index(acc, e.0, 0);
        let acc2 = if i < acc.len() { acc.update(i, e) } else { acc.push(e) };
        assert forall|x: int, y: int| 0 <= x < y < acc2.len() implies #[trigger] acc2[x].0 != #[trigger] acc2[y].0 by {
            if i < acc.len() {
                assert(acc2[x].0 == acc[x].0 && acc2[y].0 == acc[y].0);
            } else if y == acc.len() {
                assert(acc[x].0 != e.0);
            } else {
                assert(acc2[x] == acc[x] && acc2[y] == acc[y]);
            }
        }
        merge_law(acc2, rest);
        let r = merge_into(acc2, rest);
        assert(r == merge_into(acc, es));
        assert forall|k: int| 0 <= k < acc.len() implies #[trigger] r[k].0 == acc[k].0 by {
            assert(r[k].0 == acc2[k].0);
        }
        assert forall|k: int| 0 <= k < r.len() implies match last_data(es, (#[trigger] r[k]).0) {
            Some(d) => r[k].1 == d,
            None => k < acc.len() && r[k] == acc[k],
        } by {
            let x = r[k].0;
            if last_data(rest, x) is None {
                assert(k < acc2.len() && r[k] == acc2[k]);
                if x == e.0 {
                    if i < acc.len() {
                        assert(acc2[i].0 == e.0);
                        if k != i {
                            assert(acc2[k].0 != acc2[i].0);
                        }
                    } else {
                        if k < acc.len() {
                            assert(acc[k].0 != e.0);
                        }
                    }
                    assert(r[k] == e);
                } else {
                    if i < acc.len() {
                        assert(k != i);
                        assert(acc2[k] == acc[k]);
                    } else {
                        assert(k != acc.len());
                        assert(acc2[k] == acc[k]);
                    }
                }
            }
        }
    }
}

} // verus!
