use emucore::api::actor::{actor_collide, actor_draw_parts, actor_duration, actor_last, actor_next, actor_set_action,
    ActorState, PartDraw};
use emucore::api::oldlib::{actor_load_rest, ActorData};

fn words(v: &[i32]) -> Vec<u8> {
    v.iter().flat_map(|w| w.to_le_bytes()).collect()
}

/// One frame rectangle 10 x 10; one action of two steps lasting 3 and 4 ticks, the
/// first showing one part of type 7.
fn data() -> ActorData {
    actor_load_rest(&words(&[1, 0, 0, 10, 10, 0, 1, 2, 3, 1, 0, 1, 2, 0x1FF, 7, 4, 0]))
}

fn at(x: i32, y: i32) -> ActorState {
    ActorState { x, y, action: 0, frame: 0, tick: 0 }
}

#[test]
fn animation_steps_and_wraps() {
    let d = data();
    let mut s = at(0, 0);
    assert_eq!(actor_duration(&d, s), 4);
    for t in 1..4 {
        let (n, r) = actor_next(&d, s);
        assert_eq!((n.frame, n.tick, r), (0, t, 4));
        s = n;
    }
    let (n, r) = actor_next(&d, s);
    assert_eq!((n.frame, n.tick, r), (1, 4, 1));
    s = n;
    assert_eq!(actor_duration(&d, s), 4);
    let (n, r) = actor_next(&d, s);
    assert_eq!((n.frame, n.tick, r), (0, 0, 0));
}

#[test]
fn last_step_duration() {
    assert_eq!(actor_last(&data(), at(0, 0)), 4);
}

#[test]
fn action_switch_needs_a_new_existing_action() {
    let d = data();
    let s = ActorState { frame: 1, tick: 2, ..at(0, 0) };
    assert_eq!(actor_set_action(&d, s, 0), s);
    assert_eq!(actor_set_action(&d, s, 1), s);
    let d2 = actor_load_rest(&words(&[0, 2, 1, 3, 0, 1, 9, 0]));
    assert_eq!(actor_set_action(&d2, s, 1), ActorState { action: 1, frame: 0, tick: 0, ..s });
}

#[test]
fn parts_to_draw() {
    let d = data();
    let p = actor_draw_parts(&d, &vec![42], at(100, 50), 0, 0);
    assert_eq!(p, vec![PartDraw { img: 42, x: 101, y: 52, sx: 0, sy: 0, w: 10, h: 10, flags: 0xFF }]);
    let p = actor_draw_parts(&d, &vec![42], at(100, 50), 10, 20);
    assert_eq!((p[0].x, p[0].y), (91, 32));
    assert!(actor_draw_parts(&d, &vec![42], ActorState { frame: 1, ..at(0, 0) }, 0, 0).is_empty());
}

#[test]
fn collisions_by_part_type() {
    let d = data();
    assert!(actor_collide(&d, at(0, 0), &d, at(5, 5), 7, 7));
    assert!(!actor_collide(&d, at(0, 0), &d, at(5, 5), 1, 7));
    assert!(!actor_collide(&d, at(0, 0), &d, at(20, 0), 7, 7));
    assert!(actor_collide(&d, at(0, 0), &d, at(9, 9), 7, 7));
    assert!(!actor_collide(&d, at(0, 0), &d, at(10, 0), 7, 7));
}
