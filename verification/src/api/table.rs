//! The table of system calls: each entry names a call, optionally under a manager
//! tag, and the handler (by number) that serves it. A call is resolved by its tag
//! and name, then by the tag alone, then by the name where that is unambiguous.
use vstd::prelude::*;
use crate::strs::str_eq;

verus! {

/// One system call the emulator serves: its manager tag (`None`: the entry serves
/// every call whose tag equals `name`), its name and the number of its handler.
pub struct ApiEntry {
    pub tag: Option<String>,
    pub name: String,
    pub func: u32,
}

/// An entry as plain values.
pub open spec fn entry_view(e: ApiEntry) -> (Option<Seq<char>>, Seq<char>, u32) {
    (match e.tag { Some(t) => Some(t@), None => None }, e.name@, e.func)
}

/// A table as plain values.
pub open spec fn entries_view(v: Seq<ApiEntry>) -> Seq<(Option<Seq<char>>, Seq<char>, u32)> {
    v.map_values(|e: ApiEntry| entry_view(e))
}

/// The names in a table, in order.
pub open spec fn names_of(es: Seq<(Option<Seq<char>>, Seq<char>, u32)>) -> Seq<Seq<char>> {
    es.map_values(|e: (Option<Seq<char>>, Seq<char>, u32)| e.1)
}

/// The handler of the last of the first `n` entries filed under `tag` and `name`.
pub open spec fn last_exact(es: Seq<(Option<Seq<char>>, Seq<char>, u32)>, n: int, tag: Seq<char>, name: Seq<char>) -> Option<u32>
    decreases n,
{
    if n <= 0 {
        None
    } else if es[n - 1].0 == Some(tag) && es[n - 1].1 == name {
        Some(es[n - 1].2)
    } else {
        last_exact(es, n - 1, tag, name)
    }
}

/// The handler of the last of the first `n` entries without a tag named `tag`.
pub open spec fn last_wild(es: Seq<(Option<Seq<char>>, Seq<char>, u32)>, n: int, tag: Seq<char>) -> Option<u32>
    decreases n,
{
    if n <= 0 {
        None
    } else if es[n - 1].0 is None && es[n - 1].1 == tag {
        Some(es[n - 1].2)
    } else {
        last_wild(es, n - 1, tag)
    }
}

/// What the first `n` entries say of `name` alone: `None` when none has that name,
/// `Some(Some(f))` when all that have it name handler `f`, `Some(None)` when they
/// disagree.
pub open spec fn by_name(es: Seq<(Option<Seq<char>>, Seq<char>, u32)>, n: int, name: Seq<char>) -> Option<Option<u32>>
    decreases n,
{
    if n <= 0 {
        None
    } else {
        let prev = by_name(es, n - 1, name);
        if es[n - 1].1 == name {
            match prev {
                None => Some(Some(es[n - 1].2)),
                Some(Some(f)) => if f == es[n - 1].2 { Some(Some(f)) } else { Some(None) },
                Some(None) => Some(None),
            }
        } else {
            prev
        }
    }
}

/// The handler that serves the call `name` under `tag`: the last entry filed under
/// both, else the last untagged entry named `tag`, else the one handler all entries
/// named `name` agree on.
pub open spec fn spec_lookup(es: Seq<(Option<Seq<char>>, Seq<char>, u32)>, tag: Seq<char>, name: Seq<char>) -> Option<u32> {
    match last_exact(es, es.len() as int, tag, name) {
        Some(f) => Some(f),
        None => match last_wild(es, es.len() as int, tag) {
            Some(f) => Some(f),
            None => match by_name(es, es.len() as int, name) {
                Some(Some(f)) => Some(f),
                _ => None,
            },
        },
    }
}

/// The handler that serves a call (see `spec_lookup`).
pub fn lookup(entries: &Vec<ApiEntry>, tag: &str, name: &str) -> (r: Option<u32>)
    ensures
        r == spec_lookup(entries_view(entries@), tag@, name@),
{
    let ghost es = entries_view(entries@);
    let mut exact: Option<u32> = None;
    let mut wild: Option<u32> = None;
    let mut named: Option<Option<u32>> = None;
    let mut i: usize = 0;
    while i < entries.len()
        invariant
            i <= entries@.len(),
            es == entries_view(entries@),
            exact == last_exact(es, i as int, tag@, name@),
            wild == last_wild(es, i as int, tag@),
            named == by_name(es, i as int, name@),
        decreases entries@.len() - i,
    {
        let e = &entries[i];
        assert(es[i as int] == entry_view(*e));
        let same_name = str_eq(e.name.as_str(), name);
        match &e.tag {
            Some(t) => {
                if str_eq(t.as_str(), tag) && same_name {
                    exact = Some(e.func);
                }
            },
            None => {
                if str_eq(e.name.as_str(), tag) {
                    wild = Some(e.func);
                }
            },
        }
        if same_name {
            named = match named {
                None => Some(Some(e.func)),
                Some(Some(f)) => if f == e.func { Some(Some(f)) } else { Some(None) },
                Some(None) => Some(None),
            };
        }
        i = i + 1;
    }
    match exact {
        Some(f) => Some(f),
        None => match wild {
            Some(f) => Some(f),
            None => match named {
                Some(Some(f)) => Some(f),
                _ => None,
            },
        },
    }
}

/// How many different calls a table serves by name: the number of different names
/// in it.
pub fn implemented(entries: &Vec<ApiEntry>) -> (r: usize)
    ensures
        r == names_of(entries_view(entries@)).to_set().len(),
{
    let ghost es = entries_view(entries@);
    let mut seen: Vec<&str> = Vec::new();
    let mut i: usize = 0;
    while i < entries.len()
        invariant
            i <= entries@.len(),
            es == entries_view(entries@),
            seen@.len() <= i,
            seen@.map_values(|s: &str| s@).no_duplicates(),
            seen@.map_values(|s: &str| s@).to_set() == names_of(es.take(i as int)).to_set(),
        decreases entries@.len() - i,
    {
        let name = entries[i].name.as_str();
        assert(es[i as int].1 == name@);
        let ghost sv = seen@.map_values(|s: &str| s@);
        let mut found = false;
        let mut k: usize = 0;
        while k < seen.len()
            invariant
                k <= seen@.len(),
                sv == seen@.map_values(|s: &str| s@),
                found <==> exists|j: int| 0 <= j < k && sv[j] == name@,
            decreases seen@.len() - k,
        {
            let hit = str_eq(seen[k], name);
            assert(sv[k as int] == seen@[k as int]@);
            if hit {
                found = true;
            }
            k = k + 1;
        }
        let ghost before = names_of(es.take(i as int));
        let ghost after = names_of(es.take(i as int + 1));
        assert(after =~= before.push(name@));
        proof {
            before.lemma_push_to_set_commute(name@);
        }
        if !found {
            seen.push(name);
            proof {
                let nv = seen@.map_values(|s: &str| s@);
                assert(nv =~= sv.push(name@));
                assert(!sv.contains(name@));
                sv.lemma_push_to_set_commute(name@);
            }
        } else {
            proof {
                let j = choose|j: int| 0 <= j < sv.len() && sv[j] == name@;
                assert(sv.to_set().contains(name@));
                assert(sv.to_set().insert(name@) =~= sv.to_set());
            }
        }
        i = i + 1;
    }
    proof {
        assert(es.take(entries@.len() as int) =~= es);
        seen@.map_values(|s: &str| s@).unique_seq_to_set();
    }
    seen.len()
}

} // verus!
