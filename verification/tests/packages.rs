use emucore::api::dfpkg::{materialize, pick_entries, MemWrite};
use emucore::container::{ResArchive, ResEntry};
use emucore::mem::Bump;

fn archive(ents: &[(&str, &[u8])]) -> ResArchive {
    let mut off = 0;
    let mut entries = Vec::new();
    for (n, d) in ents {
        entries.push(ResEntry { name: n.to_string(), off, size: d.len(), data: d.to_vec() });
        off += d.len();
    }
    ResArchive { base: 0, size: 0, count: ents.len(), data_off: 0, data_size: off, entries }
}

fn pairs(v: &[(&str, &[u8])]) -> Vec<(String, Vec<u8>)> {
    v.iter().map(|(n, d)| (n.to_string(), d.to_vec())).collect()
}

fn packages() -> Vec<(String, ResArchive)> {
    vec![
        ("".to_string(), archive(&[("a", &[1]), ("b", &[2])])),
        ("lvl".to_string(), archive(&[("c", &[3]), ("a", &[9])])),
    ]
}

#[test]
fn named_package_is_laid_over_the_root() {
    let (key, ents) = pick_entries(&packages(), None, None, "lvl");
    assert_eq!(key, "<comb>lvl");
    assert_eq!(ents, pairs(&[("a", &[9]), ("b", &[2]), ("c", &[3])]));
}

#[test]
fn package_found_by_last_path_part_ignoring_case() {
    let (key, ents) = pick_entries(&packages(), None, None, "data\\LVL");
    assert_eq!(key, "<comb>lvl");
    assert_eq!(ents.len(), 3);
}

#[test]
fn unknown_or_empty_name_gives_the_root() {
    let (key, ents) = pick_entries(&packages(), None, None, "zzz");
    assert_eq!(key, "<root>");
    assert_eq!(ents, pairs(&[("a", &[1]), ("b", &[2])]));
    let (key, _) = pick_entries(&packages(), None, None, "");
    assert_eq!(key, "<root>");
}

#[test]
fn package_without_root_stands_alone() {
    let pk = vec![("lvl".to_string(), archive(&[("c", &[3])]))];
    let (key, ents) = pick_entries(&pk, None, None, "lvl");
    assert_eq!(key, "<sub>lvl");
    assert_eq!(ents, pairs(&[("c", &[3])]));
}

#[test]
fn no_packages_fall_back_to_resources() {
    let res = archive(&[("r", &[7])]);
    let icons = archive(&[("i", &[8])]);
    assert_eq!(pick_entries(&vec![], Some(&res), Some(&icons), "x"), ("<res>".to_string(), pairs(&[("r", &[7])])));
    assert_eq!(pick_entries(&vec![], None, Some(&icons), "x"), ("<res>".to_string(), pairs(&[("i", &[8])])));
    assert_eq!(pick_entries(&vec![], None, None, "x"), ("<res>".to_string(), vec![]));
}

#[test]
fn materialize_lays_out_tables_once() {
    let mut heap = Bump::new(0x1000, 0x1_0000);
    let mut cache = Vec::new();
    let ents = pairs(&[("a", &[1, 2, 3]), ("bc", &[4])]);
    let (n, w) = materialize(&mut heap, &mut cache, 0x8000, "k", &ents);
    assert_eq!(n, 2);
    assert_eq!(
        w,
        vec![
            MemWrite::Bytes(0x1000, vec![1, 2, 3, 4]),
            MemWrite::Bytes(0x1030, b"a\0".to_vec()),
            MemWrite::Word(0x1010, 0x1030),
            MemWrite::Word(0x1020, 0),
            MemWrite::Bytes(0x1040, b"bc\0".to_vec()),
            MemWrite::Word(0x1014, 0x1040),
            MemWrite::Word(0x1024, 3),
            MemWrite::Word(0x1028, 4),
            MemWrite::Bytes(0x8008, vec![2, 0]),
            MemWrite::Word(0x800C, 0x1010),
            MemWrite::Word(0x8010, 0x1020),
            MemWrite::Word(0x8018, 0x1000),
            MemWrite::Word(0x8060, 4),
            MemWrite::Bytes(0x8000, vec![1]),
        ]
    );
    assert_eq!(cache, vec![("k".to_string(), (0x1010, 0x1020, 0x1000, 4))]);
    let used = heap.used();
    let (n2, w2) = materialize(&mut heap, &mut cache, 0x9000, "k", &pairs(&[("zz", &[5])]));
    assert_eq!(n2, 1);
    assert_eq!(heap.used(), used);
    assert_eq!(
        w2,
        vec![
            MemWrite::Bytes(0x9008, vec![1, 0]),
            MemWrite::Word(0x900C, 0x1010),
            MemWrite::Word(0x9010, 0x1020),
            MemWrite::Word(0x9018, 0x1000),
            MemWrite::Word(0x9060, 4),
            MemWrite::Bytes(0x9000, vec![1]),
        ]
    );
}

#[test]
fn materialize_of_nothing() {
    let mut heap = Bump::new(0x1000, 0x1_0000);
    let mut cache = Vec::new();
    let (n, w) = materialize(&mut heap, &mut cache, 0x8000, "<res>", &vec![]);
    assert_eq!(n, 0);
    // data 0x1000 (nothing written), names 0x1010, offsets 0x1020 holding the total.
    assert_eq!(w[0], MemWrite::Word(0x1020, 0));
    assert_eq!(w.len(), 7);
}
