use emucore::api::table::{implemented, lookup, ApiEntry};

fn entry(tag: Option<&str>, name: &str, func: u32) -> ApiEntry {
    ApiEntry { tag: tag.map(|t| t.to_string()), name: name.to_string(), func }
}

fn table() -> Vec<ApiEntry> {
    vec![
        entry(Some("A"), "f", 1),
        entry(None, "W", 2),
        entry(Some("B"), "g", 3),
        entry(Some("C"), "g", 3),
        entry(Some("D"), "h", 4),
        entry(Some("E"), "h", 5),
        entry(Some("A"), "f", 6),
    ]
}

#[test]
fn calls_resolve_by_tag_then_name() {
    let t = table();
    assert_eq!(lookup(&t, "A", "f"), Some(6));
    assert_eq!(lookup(&t, "W", "zzz"), Some(2));
    assert_eq!(lookup(&t, "X", "g"), Some(3));
    assert_eq!(lookup(&t, "A", "g"), Some(3));
    assert_eq!(lookup(&t, "X", "h"), None);
    assert_eq!(lookup(&t, "X", "nope"), None);
}

#[test]
fn implemented_counts_names() {
    assert_eq!(implemented(&table()), 4);
    assert_eq!(implemented(&vec![]), 0);
}
