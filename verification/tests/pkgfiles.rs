use emucore::api::pkgindex::{file_index, PkgEntries};

fn names(v: &[(&str, u32)]) -> Vec<(String, u32)> {
    v.iter().map(|(n, s)| (n.to_string(), *s)).collect()
}

#[test]
fn loaded_package_files_are_seen() {
    let mut p = PkgEntries::new();
    assert!(p.list.is_empty());
    assert_eq!(p.entries_for(Some(7), None, None), vec![]);
    p.record(100, names(&[("a.png", 10), ("b.mid", 20)]));
    p.record(200, names(&[("c.txt", 3)]));
    assert_eq!(p.entries_for(Some(200), None, None), names(&[("c.txt", 3)]));
    assert_eq!(p.entries_for(Some(999), None, None), names(&[("a.png", 10), ("b.mid", 20)]));
    p.record(100, names(&[("d.bin", 5)]));
    assert_eq!(p.list.len(), 2);
    assert_eq!(p.entries_for(Some(100), None, None), names(&[("d.bin", 5)]));
    assert_eq!(p.entries_for(Some(200), None, None), names(&[("c.txt", 3)]));
}

#[test]
fn files_found_by_name() {
    let v = names(&[("a", 1), ("b", 2), ("b", 3)]);
    assert_eq!(file_index(&v, "b"), 1);
    assert_eq!(file_index(&v, "a"), 0);
    assert_eq!(file_index(&v, "z"), 0xFFFF);
}
