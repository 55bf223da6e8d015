use emucore::engine::{field, parse, Cmd};
use emucore::session::Touch;

#[test]
fn field_takes_the_rest_after_the_colon() {
    assert_eq!(field(r#"{"keys": 12}"#, "keys"), Some("12}".to_string()));
    assert_eq!(field(r#"{"keys"  :  7 }"#, "keys"), Some("7 }".to_string()));
    assert_eq!(field(r#"{"fps":30}"#, "keys"), None);
    assert_eq!(field(r#"{"keys" 3}"#, "keys"), None);
}

#[test]
fn parse_quit() {
    assert!(matches!(parse(r#"{"quit": true}"#), Some(Cmd::Quit)));
    assert!(parse(r#"{"quit": false}"#).is_none());
}

#[test]
fn parse_keys_and_fps() {
    assert!(matches!(parse(r#"{"keys": 4096}"#), Some(Cmd::Keys(4096))));
    assert!(matches!(parse(r#"{"fps":30}"#), Some(Cmd::Fps(30))));
    assert!(parse(r#"{"keys": x}"#).is_none());
    assert!(parse(r#"{"keys": 99999999999}"#).is_none());
}

#[test]
fn parse_soft_key() {
    match parse(r#"{"soft": "left"}"#) {
        Some(Cmd::Soft(s)) => assert_eq!(s, "left"),
        other => panic!("unexpected {:?}", other),
    }
}

#[test]
fn parse_touch() {
    assert!(matches!(parse(r#"{"touch": [10, 20, "up"]}"#), Some(Cmd::Touch(10, 20, Touch::Up))));
    assert!(matches!(parse(r#"{"touch": [-3,4,"move"]}"#), Some(Cmd::Touch(-3, 4, Touch::Move))));
    assert!(matches!(parse(r#"{"touch": [1,2,"down"]}"#), Some(Cmd::Touch(1, 2, Touch::Down))));
    assert!(parse(r#"{"touch": [1,2]}"#).is_none());
    assert!(parse(r#"{"touch": [1,2,"up""#).is_none());
}

#[test]
fn parse_unknown_line() {
    assert!(parse("hello").is_none());
}
