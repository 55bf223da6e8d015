use emucore::vfs::{is_glue_file, norm, open_plan, seek_target, OpenKind, OpenPlan};

#[test]
fn paths_are_normalised() {
    assert_eq!(norm("\\a\\b.txt"), "a/b.txt");
    assert_eq!(norm("C:\\x\\y"), "x/y");
    assert_eq!(norm("//c://y"), "y");
    assert_eq!(norm("中:x"), "中:x");
    assert_eq!(norm("a:"), "");
    assert_eq!(norm(""), "");
}

#[test]
fn glue_files() {
    assert!(is_glue_file("A:\\data\\DFWSMS_1.dat"));
    assert!(is_glue_file("coolbar_list"));
    assert!(!is_glue_file("x/notglue"));
    assert!(!is_glue_file("wpay/other"));
}

#[test]
fn open_plans() {
    let read = OpenPlan { writing: false, make_missing: false, kind: OpenKind::Read };
    assert_eq!(open_plan("a.txt", "rb"), Some(read));
    assert_eq!(open_plan("a.txt", ""), Some(read));
    assert_eq!(open_plan("a.txt", "W"), Some(OpenPlan { writing: true, make_missing: true, kind: OpenKind::Truncate }));
    assert_eq!(open_plan("a.txt", "ab"), Some(OpenPlan { writing: true, make_missing: true, kind: OpenKind::Append }));
    assert_eq!(open_plan("a.txt", "r+"), Some(OpenPlan { writing: true, make_missing: false, kind: OpenKind::ReadWrite }));
    assert_eq!(open_plan("wpay.cfg", "r"), Some(OpenPlan { writing: false, make_missing: true, kind: OpenKind::Read }));
    assert_eq!(open_plan("dir/", "w"), None);
    assert_eq!(open_plan("dir\\", "r"), None);
    assert_eq!(open_plan("", "r"), None);
}

#[test]
fn seeks() {
    assert_eq!(seek_target(-5, 0), Some((0, 0)));
    assert_eq!(seek_target(7, 0), Some((0, 7)));
    assert_eq!(seek_target(-5, 1), Some((1, -5)));
    assert_eq!(seek_target(-5, 2), Some((2, -5)));
    assert_eq!(seek_target(1, 3), None);
}
