use emucore::mem::{align_page, align_up, layout, place, rw_place, Bump, Placement, Region};

#[test]
fn bump_reuses_freed_blocks() {
    let mut b = Bump::new(0x4000_0000, 0x1000);
    let a = b.allocate(0x100, "a", true).unwrap();
    let c = b.allocate(0x100, "c", true).unwrap();
    assert_eq!(a, 0x4000_0000);
    assert_eq!(c, 0x4000_0100);

    b.free(a);
    assert_eq!(b.allocate(0x100, "d", true).unwrap(), a);
}

#[test]
fn bump_pops_top_block() {
    let mut b = Bump::new(0x4000_0000, 0x1000);
    let a = b.allocate(0x100, "a", true).unwrap();
    let c = b.allocate(0x100, "c", true).unwrap();
    b.free(c);

    assert_eq!(b.cur, c);
    assert_eq!(b.allocate(0x100, "e", true).unwrap(), c);
    let _ = a;
}

#[test]
fn bump_merges_adjacent_free_blocks() {
    let mut b = Bump::new(0x4000_0000, 0x10000);
    let a = b.allocate(0x100, "a", true).unwrap();
    let c = b.allocate(0x100, "c", true).unwrap();
    let _keep = b.allocate(0x100, "keep", true).unwrap();
    b.free(a);
    b.free(c);
    assert_eq!(b.free_blocks(), 1, "相邻的两块应当合并成一块");

    assert_eq!(b.allocate(0x200, "big", true).unwrap(), a);
}

#[test]
fn alloc_rounds_up_to_16() {
    let mut b = Bump::new(0x4000_0000, 0x1000);
    b.allocate(1, "x", true).unwrap();
    assert_eq!(b.cur, 0x4000_0010);
}

#[test]
fn oversized_alloc_is_refused() {
    let mut b = Bump::new(0x4000_0000, 0x1000);
    assert!(b.allocate(Bump::MAX_ALLOC + 1, "junk", true).is_err());
    assert_eq!(b.allocate(Bump::MAX_ALLOC + 1, "junk", false).unwrap(), 0);
}

#[test]
fn oversized_alloc_message_names_size_and_tag() {
    let mut b = Bump::new(0x4000_0000, 0x1000);
    let e = b.allocate(0x0400_0001, "junk", true).unwrap_err();
    assert_eq!(e, "单次分配 0x4000001 过大（tag=junk）");
}

#[test]
fn exhausted_heap_reports_usage() {
    let mut b = Bump::new(0x4000_0000, 0x100);
    b.allocate(0xF0, "a", true).unwrap();
    let e = b.allocate(0x20, "b", true).unwrap_err();
    assert_eq!(e, "模拟堆耗尽（已用 0xf0 / 0x100）");
    assert_eq!(b.allocate(0x20, "b", false).unwrap(), 0);
    assert_eq!(b.used(), 0xF0);
}

#[test]
fn zero_byte_request_takes_sixteen() {
    let mut b = Bump::new(0x1000, 0x1000);
    let p = b.allocate(0, "z", true).unwrap();
    assert_eq!(p, 0x1000);
    assert_eq!(b.block_size(p), Some(16));
    assert_eq!(b.used(), 16);
}

#[test]
fn free_splits_and_merges_both_sides() {
    let mut b = Bump::new(0, 0x1000);
    let p0 = b.allocate(0x10, "0", true).unwrap();
    let p1 = b.allocate(0x10, "1", true).unwrap();
    let p2 = b.allocate(0x10, "2", true).unwrap();
    let _p3 = b.allocate(0x10, "3", true).unwrap();
    b.free(p0);
    b.free(p2);
    assert_eq!(b.free_blocks(), 2);
    b.free(p1);
    assert_eq!(b.free_blocks(), 1);
    assert_eq!(b.live_blocks(), 1);
    // The merged range is handed out from its front, then split.
    assert_eq!(b.allocate(0x10, "a", true).unwrap(), 0);
    assert_eq!(b.allocate(0x10, "b", true).unwrap(), 0x10);
    assert_eq!(b.free_blocks(), 1);
}

#[test]
fn freeing_unknown_address_is_ignored() {
    let mut b = Bump::new(0x4000_0000, 0x1000);
    let a = b.allocate(0x40, "a", true).unwrap();
    b.free(a + 0x10);
    assert_eq!(b.live_blocks(), 1);
    assert_eq!(b.block_size(a), Some(0x40));
    b.free(a);
    assert_eq!(b.block_size(a), None);
    assert_eq!(b.used(), 0);
}

#[test]
fn alloc_then_free_restores_the_heap() {
    let mut b = Bump::new(0x4000_0000, 0x1000);
    let a = b.allocate(0x40, "a", true).unwrap();
    let _k = b.allocate(0x40, "k", true).unwrap();
    b.free(a);
    let before = (b.cur, b.free_blocks(), b.live_blocks());
    let p = b.allocate(0x10, "x", true).unwrap();
    assert_eq!(p, a);
    b.free(p);
    assert_eq!((b.cur, b.free_blocks(), b.live_blocks()), before);
}

#[test]
fn align_rounds_up() {
    assert_eq!(align_up(0, 16), 0);
    assert_eq!(align_up(1, 16), 16);
    assert_eq!(align_up(16, 16), 16);
    assert_eq!(align_up(17, 16), 32);
    assert_eq!(align_page(0x1001), 0x2000);
    assert_eq!(align_page(0xFFFF_FFFF), 0);
}

#[test]
fn region_bounds() {
    let r = Region { name: "HEAP", base: layout::HEAP_BASE, size: layout::HEAP_SIZE };
    assert!(r.contains(0x4000_0000));
    assert!(r.contains(0x4FFF_FFFF));
    assert!(!r.contains(0x5000_0000));
    assert!(!r.contains(0x3FFF_FFFF));
    let top = Region { name: "TOP", base: 0xFFFF_F000, size: 0x1000 };
    assert!(top.contains(0xFFFF_FFFF));
}

fn module(load_base: u32, image_size: u32, image_end: u32, rw_size: u32, ro: usize, rw: usize) -> emucore::container::CbeModule {
    emucore::container::CbeModule {
        path: String::new(),
        raw: Vec::new(),
        name: String::new(),
        load_base,
        image_size,
        image_end,
        rw_size,
        ro: vec![0u8; ro],
        rw: vec![0u8; rw],
        ro_off: 0,
        rw_off: 0,
        ro_chk: 0,
        rw_chk: 0,
        endian: emucore::container::Endian::Le,
        icons: None,
        res: None,
        packages: Vec::new(),
    }
}

#[test]
fn default_placement_without_load_base() {
    let m = module(0, 0x1234, 0, 0x100, 0x10, 0x20);
    assert_eq!(
        place(&m),
        Placement { ro_base: layout::RO_DEFAULT, ro_size: 0x2000, rw_base: layout::RW_BASE, rw_size: 0x11000 }
    );
}

#[test]
fn rw_follows_image_end_when_plausible() {
    let m = module(0x0800_0000, 0x3000, 0x0800_2000, 0, 0x2FF1, 0);
    assert_eq!(rw_place(&m), 0x0800_2000);
    let p = place(&m);
    assert_eq!(p.ro_base, 0x0800_0000);
    assert_eq!(p.rw_base, 0x0800_2000);
    assert_eq!(p.ro_size, 0x3000);
    assert_eq!(p.rw_size, 0x10000);
}

#[test]
fn rw_after_ro_bytes_when_image_end_is_off() {
    let m = module(0x0800_0000, 0x3000, 0x0900_0000, 0, 0x2FF1, 0);
    assert_eq!(rw_place(&m), 0x0800_3000);
    let m2 = module(0x0800_0000, 0x3000, 0x0700_0000, 0, 0x11, 0);
    assert_eq!(rw_place(&m2), 0x0800_0020);
}
