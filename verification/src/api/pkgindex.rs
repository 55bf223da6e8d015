//! Which files each loaded data package holds: the file names and sizes recorded
//! when a package is loaded, and the lookups of a package's files by name.
use vstd::prelude::*;
use crate::container::{ResArchive, SpecEntry};
use crate::strs::{copy_string, str_eq};

verus! {

/// File names and sizes as plain values.
pub open spec fn names_view(v: Seq<(String, u32)>) -> Seq<(Seq<char>, u32)> {
    v.map_values(|e: (String, u32)| (e.0@, e.1))
}

/// The packages recorded, each with its files, as plain values.
pub open spec fn list_view(l: Seq<(u32, Vec<(String, u32)>)>) -> Seq<(u32, Seq<(Seq<char>, u32)>)> {
    l.map_values(|e: (u32, Vec<(String, u32)>)| (e.0, names_view(e.1@)))
}

/// The files of an archive as names and sizes (the size kept in 32 bits).
pub open spec fn archive_names(es: Seq<SpecEntry>) -> Seq<(Seq<char>, u32)> {
    es.map_values(|e: SpecEntry| (e.name, e.size as u32))
}

/// Where package `pkg` stands in the list (the first place), or the list's length.
pub open spec fn find_pkg(l: Seq<(u32, Seq<(Seq<char>, u32)>)>, pkg: u32) -> int
    decreases l.len(),
{
    if l.len() == 0 {
        0
    } else {
        let j = find_pkg(l.drop_last(), pkg);
        if j < l.len() - 1 {
            j
        } else if l.last().0 == pkg {
            l.len() - 1
        } else {
            l.len() as int
        }
    }
}

/// The list after package `pkg` is loaded with `names`: its record is replaced, or
/// a new record is added at the end.
pub open spec fn spec_record(l: Seq<(u32, Seq<(Seq<char>, u32)>)>, pkg: u32, names: Seq<(Seq<char>, u32)>) -> Seq<(u32, Seq<(Seq<char>, u32)>)> {
    let i = find_pkg(l, pkg);
    if i < l.len() { l.update(i, (pkg, names)) } else { l.push((pkg, names)) }
}

/// The files a lookup in package `pkg` sees: those recorded for it, else those of
/// the first package recorded, else `fallback` (the resources, or the icons).
pub open spec fn spec_entries_for(l: Seq<(u32, Seq<(Seq<char>, u32)>)>, fallback: Seq<(Seq<char>, u32)>, pkg: Option<u32>) -> Seq<(Seq<char>, u32)> {
    match pkg {
        Some(p) if find_pkg(l, p) < l.len() => l[find_pkg(l, p)].1,
        _ => if l.len() > 0 { l[0].1 } else { fallback },
    }
}

/// The place of the first file named `name`, or the number of files.
pub open spec fn file_pos(names: Seq<(Seq<char>, u32)>, name: Seq<char>) -> int
    decreases names.len(),
{
    if names.len() == 0 {
        0
    } else {
        let j = file_pos(names.drop_last(), name);
        if j < names.len() - 1 {
            j
        } else if names.last().0 == name {
            names.len() - 1
        } else {
            names.len() as int
        }
    }
}

proof fn lemma_find_pkg(l: Seq<(u32, Seq<(Seq<char>, u32)>)>, pkg: u32)
    ensures
        0 <= find_pkg(l, pkg) <= l.len(),
        find_pkg(l, pkg) < l.len() ==> l[find_pkg(l, pkg)].0 == pkg,
        forall|j: int| 0 <= j < find_pkg(l, pkg) ==> #[trigger] l[j].0 != pkg,
    decreases l.len(),
{
    if l.len() > 0 {
        lemma_find_pkg(l.drop_last(), pkg);
        assert forall|j: int| 0 <= j < find_pkg(l, pkg) && j < l.len() - 1 implies #[trigger] l[j].0 != pkg by {
            assert(l.drop_last()[j] == l[j]);
        }
    }
}

proof fn lemma_find_pkg_is(l: Seq<(u32, Seq<(Seq<char>, u32)>)>, pkg: u32, i: int)
    requires
        0 <= i <= l.len(),
        i < l.len() ==> l[i].0 == pkg,
        forall|j: int| 0 <= j < i ==> #[trigger] l[j].0 != pkg,
    ensures
        find_pkg(l, pkg) == i,
{
    lemma_find_pkg(l, pkg);
    let f = find_pkg(l, pkg);
    if f < i {
        assert(l[f].0 != pkg);
    } else if f > i {
        assert(l[i].0 != pkg);
    }
}

proof fn lemma_file_pos(names: Seq<(Seq<char>, u32)>, name: Seq<char>)
    ensures
        0 <= file_pos(names, name) <= names.len(),
        file_pos(names, name) < names.len() ==> names[file_pos(names, name)].0 == name,
        forall|j: int| 0 <= j < file_pos(names, name) ==> #[trigger] names[j].0 != name,
    decreases names.len(),
{
    if names.len() > 0 {
        lemma_file_pos(names.drop_last(), name);
        assert forall|j: int| 0 <= j < file_pos(names, name) && j < names.len() - 1 implies #[trigger] names[j].0 != name by {
            assert(names.drop_last()[j] == names[j]);
        }
    }
}

proof fn lemma_file_pos_is(names: Seq<(Seq<char>, u32)>, name: Seq<char>, i: int)
    requires
        0 <= i <= names.len(),
        i < names.len() ==> names[i].0 == name,
        forall|j: int| 0 <= j < i ==> #[trigger] names[j].0 != name,
    ensures
        file_pos(names, name) == i,
{
    lemma_file_pos(names, name);
    let f = file_pos(names, name);
    if f < i {
        assert(names[f].0 != name);
    } else if f > i {
        assert(names[i].0 != name);
    }
}

fn copy_names(v: &Vec<(String, u32)>) -> (r: Vec<(String, u32)>)
    ensures
        names_view(r@) == names_view(v@),
{
    let mut out: Vec<(String, u32)> = Vec::new();
    let mut i: usize = 0;
    while i < v.len()
        invariant
            i <= v@.len(),
            names_view(out@) == names_view(v@).take(i as int),
        decreases v@.len() - i,
    {
        let e = (copy_string(&v[i].0), v[i].1);
        let ghost before = out@;
        out.push(e);
        assert(names_view(out@) =~= names_view(before).push((v@[i as int].0@, v@[i as int].1)));
        assert(names_view(v@).take(i as int + 1) =~= names_view(v@).take(i as int).push(names_view(v@)[i as int]));
        i = i + 1;
    }
    assert(names_view(v@).take(v@.len() as int) =~= names_view(v@));
    out
}

/// The files of an archive as names and sizes (see `archive_names`).
pub fn archive_file_names(a: &ResArchive) -> (r: Vec<(String, u32)>)
    ensures
        names_view(r@) == archive_names(a@.entries),
{
    let mut out: Vec<(String, u32)> = Vec::new();
    let mut i: usize = 0;
    while i < a.entries.len()
        invariant
            i <= a.entries@.len(),
            a@.entries == a.entries@.map_values(|e: crate::container::ResEntry| e@),
            names_view(out@) == archive_names(a@.entries).take(i as int),
        decreases a.entries@.len() - i,
    {
        let e = (copy_string(&a.entries[i].name), a.entries[i].size as u32);
        let ghost before = out@;
        out.push(e);
        assert(a@.entries[i as int] == a.entries@[i as int]@);
        assert(names_view(out@) =~= names_view(before).push(archive_names(a@.entries)[i as int]));
        assert(archive_names(a@.entries).take(i as int + 1) =~= archive_names(a@.entries).take(i as int).push(archive_names(a@.entries)[i as int]));
        i = i + 1;
    }
    assert(archive_names(a@.entries).take(a.entries@.len() as int) =~= archive_names(a@.entries));
    out
}

/// The place of the first file named `name` (see `file_pos`), or 0xFFFF when there
/// is none.
pub fn file_index(names: &Vec<(String, u32)>, name: &str) -> (r: u32)
    requires
        names@.len() < 0xFFFF_FFFF,
    ensures
        ({
            let i = file_pos(names_view(names@), name@);
            r == (if i < names@.len() { i as u32 } else { 0xFFFFu32 })
        }),
{
    let ghost nv = names_view(names@);
    let mut i: usize = 0;
    while i < names.len()
        invariant
            i <= names@.len() < 0xFFFF_FFFF,
            nv == names_view(names@),
            forall|j: int| 0 <= j < i ==> #[trigger] nv[j].0 != name@,
        decreases names@.len() - i,
    {
        assert(nv[i as int].0 == names@[i as int].0@);
        if str_eq(names[i].0.as_str(), name) {
            proof {
                lemma_file_pos_is(nv, name@, i as int);
            }
            return i as u32;
        }
        i = i + 1;
    }
    proof {
        lemma_file_pos_is(nv, name@, nv.len() as int);
    }
    0xFFFF
}

/// The packages loaded so far, each with its files.
pub struct PkgEntries {
    pub list: Vec<(u32, Vec<(String, u32)>)>,
}

impl PkgEntries {
    /// No package loaded.
    pub fn new() -> (p: PkgEntries)
        ensures
            list_view(p.list@) == Seq::<(u32, Seq<(Seq<char>, u32)>)>::empty(),
    {
        let p = PkgEntries { list: Vec::new() };
        assert(list_view(p.list@) =~= Seq::<(u32, Seq<(Seq<char>, u32)>)>::empty());
        p
    }

    fn find(&self, pkg: u32) -> (r: usize)
        ensures
            r as int == find_pkg(list_view(self.list@), pkg),
    {
        let ghost lv = list_view(self.list@);
        let mut i: usize = 0;
        while i < self.list.len()
            invariant
                i <= self.list@.len(),
                lv == list_view(self.list@),
                forall|j: int| 0 <= j < i ==> #[trigger] lv[j].0 != pkg,
            decreases self.list@.len() - i,
        {
            assert(lv[i as int].0 == self.list@[i as int].0);
            if self.list[i].0 == pkg {
                proof {
                    lemma_find_pkg_is(lv, pkg, i as int);
                }
                return i;
            }
            i = i + 1;
        }
        proof {
            lemma_find_pkg_is(lv, pkg, lv.len() as int);
        }
        i
    }

    /// Package `pkg` is loaded with the files `names` (see `spec_record`).
    pub fn record(&mut self, pkg: u32, names: Vec<(String, u32)>)
        ensures
            list_view(final(self).list@) == spec_record(list_view(old(self).list@), pkg, names_view(names@)),
    {
        let i = self.find(pkg);
        let ghost lv = list_view(self.list@);
        let ghost nv = names_view(names@);
        if i < self.list.len() {
            self.list.set(i, (pkg, names));
            assert(list_view(self.list@) =~= lv.update(i as int, (pkg, nv)));
        } else {
            self.list.push((pkg, names));
            assert(list_view(self.list@) =~= lv.push((pkg, nv)));
        }
    }

    /// The files a lookup in package `pkg` sees (see `spec_entries_for`); `res` and
    /// `icons` are the module's resource and icon archives.
    pub fn entries_for(&self, pkg: Option<u32>, res: Option<&ResArchive>, icons: Option<&ResArchive>) -> (r: Vec<(String, u32)>)
        ensures
            names_view(r@) == spec_entries_for(
                list_view(self.list@),
                match res {
                    Some(a) => archive_names(a@.entries),
                    None => match icons {
                        Some(a) => archive_names(a@.entries),
                        None => Seq::empty(),
                    },
                },
                pkg,
            ),
    {
        let ghost lv = list_view(self.list@);
        if let Some(p) = pkg {
            let i = self.find(p);
            if i < self.list.len() {
                assert(lv[i as int].1 == names_view(self.list@[i as int].1@));
                return copy_names(&self.list[i].1);
            }
        }
        if self.list.len() > 0 {
            assert(lv[0].1 == names_view(self.list@[0].1@));
            return copy_names(&self.list[0].1);
        }
        match res {
            Some(a) => archive_file_names(a),
            None => match icons {
                Some(a) => archive_file_names(a),
                None => {
                    let v: Vec<(String, u32)> = Vec::new();
                    assert(names_view(v@) =~= Seq::<(Seq<char>, u32)>::empty());
                    v
                },
            },
        }
    }
}

/// A package just loaded is what a lookup in it sees.
pub proof fn loaded_package_is_seen(l: Seq<(u32, Seq<(Seq<char>, u32)>)>, fallback: Seq<(Seq<char>, u32)>, pkg: u32, names: Seq<(Seq<char>, u32)>)
    ensures
        spec_entries_for(spec_record(l, pkg, names), fallback, Some(pkg)) == names,
{
    lemma_find_pkg(l, pkg);
    let i = find_pkg(l, pkg);
    let l2 = spec_record(l, pkg, names);
    if i < l.len() {
        lemma_find_pkg_is(l2, pkg, i);
    } else {
        assert forall|j: int| 0 <= j < l.len() implies #[trigger] l2[j].0 != pkg by {
            assert(l2[j] == l[j]);
        }
        lemma_find_pkg_is(l2, pkg, l.len() as int);
    }
}

/// Loading one package leaves what a lookup in another package already loaded sees.
pub proof fn other_package_unchanged(l: Seq<(u32, Seq<(Seq<char>, u32)>)>, fallback: Seq<(Seq<char>, u32)>, pkg: u32, names: Seq<(Seq<char>, u32)>, other: u32)
    requires
        other != pkg,
        find_pkg(l, other) < l.len(),
    ensures
        spec_entries_for(spec_record(l, pkg, names), fallback, Some(other)) == spec_entries_for(l, fallback, Some(other)),
{
    lemma_find_pkg(l, pkg);
    lemma_find_pkg(l, other);
    let i = find_pkg(l, other);
    let l2 = spec_record(l, pkg, names);
    assert(l2[i] == l[i]);
    assert forall|j: int| 0 <= j < i implies #[trigger] l2[j].0 != other by {
        if j < l.len() {
            assert(l2[j].0 == l[j].0 || l2[j].0 == pkg);
        }
    }
    lemma_find_pkg_is(l2, other, i);
}

} // verus!
