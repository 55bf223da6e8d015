use emucore::oldsys::{old_arg_layout, old_forward_entry, old_route, OldRoute};

#[test]
fn old_calls_are_routed() {
    assert_eq!(old_route(1950), OldRoute::RegisterApp);
    assert_eq!(old_route(2001), OldRoute::Fetch);
    assert_eq!(old_route(143), OldRoute::Gamelib);
    assert_eq!(old_route(82), OldRoute::GamelibCopy);
    assert_eq!(old_route(185), OldRoute::GblockAlloc);
    assert_eq!(old_route(190), OldRoute::GblockFree);
    assert_eq!(old_route(1005), OldRoute::Net);
    assert_eq!(old_route(61), OldRoute::Forward);
    assert_eq!(old_route(999), OldRoute::Object);
    assert_eq!(old_forward_entry(156), Some(("VmDFEnginelManagerTag", "DF_SendMessage", "IHI")));
    assert_eq!(old_forward_entry(7), None);
}

#[test]
fn argument_frames_are_aligned() {
    assert_eq!(old_arg_layout(b"IHI"), vec![(0, 4), (4, 2), (8, 4)]);
    assert_eq!(old_arg_layout(b"IIIBB"), vec![(0, 4), (4, 4), (8, 4), (12, 1), (13, 1)]);
    assert_eq!(old_arg_layout(b"BHBI"), vec![(0, 1), (2, 2), (4, 1), (8, 4)]);
    assert_eq!(old_arg_layout(b""), vec![]);
}
