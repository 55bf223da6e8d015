use emucore::session::{changed_samples, Repeater};
use emucore::session::{json_str, key_event, trim_range, Event, InputFrame, InputState, Touch, TouchFrame, NO_EVENT,
    TOUCH_QUEUE_MAX};

#[test]
fn touch_codes() {
    assert_eq!(Touch::from_i32(1), Touch::Up);
    assert_eq!(Touch::from_i32(2), Touch::Move);
    assert_eq!(Touch::from_i32(0), Touch::Down);
    assert_eq!(Touch::from_i32(-5), Touch::Down);
}

#[test]
fn json_strings_are_escaped() {
    assert_eq!(json_str("plain"), "\"plain\"");
    assert_eq!(json_str("a\"b\\c"), "\"a\\\"b\\\\c\"");
    assert_eq!(json_str("l1\nl2\t\r"), "\"l1\\nl2\\t\\r\"");
    assert_eq!(json_str("\u{1}"), "\"\\u0001\"");
    assert_eq!(json_str("\u{1f}"), "\"\\u001f\"");
    assert_eq!(json_str("中文"), "\"中文\"");
}

#[test]
fn events_as_json() {
    assert_eq!(Event::Exit.to_json(), r#"{"kind":"exit","why":"module"}"#);
    assert_eq!(Event::Log("hi \"x\"".to_string()).to_json(), r#"{"kind":"log","text":"hi \"x\""}"#);
    assert_eq!(
        Event::Audio(r#" {"op":"stop"} "#.to_string()).to_json(),
        r#"{"kind":"audio","op":"stop"}"#
    );
}

#[test]
fn trim_range_bounds_the_text() {
    let cs: Vec<char> = "  ab c \n".chars().collect();
    assert_eq!(trim_range(&cs), (2, 6));
    let blank: Vec<char> = " \t ".chars().collect();
    assert_eq!(trim_range(&blank), (0, 0));
}

#[test]
fn short_press_shows_in_next_frame() {
    let mut s = InputState::new();
    s.set_keys(0x4);
    s.set_keys(0);
    assert_eq!(s.held(), 0x4);
    let f = s.apply(0);
    assert_eq!(f, InputFrame { keys_down: 0x4, keys_hold: 0x4, keys_up: 0, touch: None });
    let f = s.apply(0);
    assert_eq!(f, InputFrame { keys_down: 0, keys_hold: 0, keys_up: 0x4, touch: None });
}

#[test]
fn held_key_with_repeat() {
    let mut s = InputState::new();
    s.set_keys(0x1);
    let f = s.apply(0);
    assert_eq!((f.keys_down, f.keys_hold, f.keys_up), (0x1, 0x1, 0));
    let f = s.apply(0x1);
    assert_eq!((f.keys_down, f.keys_hold, f.keys_up), (0x1, 0x1, 0));
    let f = s.apply(0);
    assert_eq!((f.keys_down, f.keys_hold, f.keys_up), (0, 0x1, 0));
}

#[test]
fn touches_are_queued_and_carried() {
    let mut s = InputState::new();
    s.set_touch(10, 20, Touch::Down);
    s.set_touch(11, 21, Touch::Move);
    s.set_touch(12, 22, Touch::Move);
    s.set_touch(12, 22, Touch::Up);
    assert_eq!(s.touch_queue.len(), 3);
    let f = s.apply(0);
    assert_eq!(f.touch, Some(TouchFrame { x: 10, y: 20, down: 1, hold: 1, up: 0, drag: 0 }));
    let f = s.apply(0);
    assert_eq!(f.touch, Some(TouchFrame { x: 12, y: 22, down: 0, hold: 1, up: 0, drag: 1 }));
    let f = s.apply(0);
    assert_eq!(f.touch, Some(TouchFrame { x: 12, y: 22, down: 0, hold: 0, up: 1, drag: 0 }));
    let f = s.apply(0);
    assert_eq!(f.touch, None);
}

#[test]
fn touch_carried_as_move_without_reports() {
    let mut s = InputState::new();
    s.set_touch(5, 6, Touch::Down);
    s.apply(0);
    let f = s.apply(0);
    assert_eq!(f.touch, Some(TouchFrame { x: 5, y: 6, down: 0, hold: 1, up: 0, drag: 1 }));
}

#[test]
fn touch_queue_is_bounded() {
    let mut s = InputState::new();
    for i in 0..(TOUCH_QUEUE_MAX as i32 + 10) {
        s.set_touch(i, i, Touch::Down);
    }
    assert_eq!(s.touch_queue.len(), TOUCH_QUEUE_MAX);
}

#[test]
fn key_events() {
    assert_eq!(key_event(0x2, 0x1, 0x800), (0, 0x800, Some(0x2)));
    assert_eq!(key_event(0, 0x1, 0x800), (1, 0x800, Some(0x1)));
    assert_eq!(key_event(0, 0, 0x800), (NO_EVENT, 0, None));
}

#[test]
fn tap_reported_over_two_frames() {
    let mut s = InputState::new();
    s.set_touch(1, 2, Touch::Down);
    s.set_touch(3, 4, Touch::Up);
    let f1 = s.apply(0);
    assert_eq!(f1.touch, Some(TouchFrame { x: 1, y: 2, down: 1, hold: 1, up: 0, drag: 0 }));
    let f2 = s.apply(0);
    assert_eq!(f2.touch, Some(TouchFrame { x: 3, y: 4, down: 0, hold: 0, up: 1, drag: 0 }));
    let f3 = s.apply(0);
    assert_eq!(f3.touch, None);
}

#[test]
fn held_key_repeats_after_delay() {
    let mut r = Repeater::new();
    assert_eq!(r.autorepeat(1, 1000), 0);
    assert_eq!(r.next[0], Some(1400));
    assert_eq!(r.autorepeat(1, 1200), 0);
    assert_eq!(r.autorepeat(1, 1400), 1);
    assert_eq!(r.next[0], Some(1520));
    assert_eq!(r.autorepeat(0, 1500), 0);
    assert_eq!(r.next[0], None);
}

#[test]
fn screen_samples_compared() {
    let a = vec![0u8; 32];
    let mut b = vec![0u8; 32];
    assert_eq!(changed_samples(&a, &b), 0);
    b[16] = 7;
    b[17] = 7;
    assert_eq!(changed_samples(&a, &b), 1);
    assert_eq!(changed_samples(&[0u8; 10], &[0u8; 33]), 2);
}
