use emucore::api::dfio::{stream_extent, string_len};
use emucore::api::text::num_to_zhifei;

#[test]
fn stored_string_lengths() {
    assert_eq!(string_len(&[5, 9, 9], 1), 5);
    assert_eq!(string_len(&[0x34, 0x12, 0, 0, 7], 4), 0x1234);
    assert_eq!(string_len(&[0, 0, 1, 0], 4), 0x1_0000);
    assert_eq!(string_len(&[1, 0, 1, 0], 4), 0);
    assert_eq!(string_len(&[], 0), 0);
}

#[test]
fn packed_stream_extent() {
    assert_eq!(stream_extent(&[2, 0, 0, 1, 0, 0, 0, 0, 9]), Some(9 + 256));
    assert_eq!(stream_extent(&[1, 0, 0, 1, 0, 0, 0, 0, 9]), None);
    assert_eq!(stream_extent(&[2, 0, 0]), None);
}

#[test]
fn full_width_numbers() {
    assert_eq!(num_to_zhifei(0), vec![0xA3, 0xB0, 0]);
    assert_eq!(num_to_zhifei(7), vec![0xA3, 0xB7, 0]);
    assert_eq!(num_to_zhifei(10), vec![0xA3, 0xB1, 0xA3, 0xB0, 0]);
    assert_eq!(num_to_zhifei(11), vec![0xA3, 0xB0, 0]);
}
