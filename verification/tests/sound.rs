use emucore::audio::{midi_duration_ms, play_duration, sniff, Audio, PLAYING, STOPPED};

fn midi(tempo: [u8; 3]) -> Vec<u8> {
    let mut d = Vec::new();
    d.extend_from_slice(b"MThd");
    d.extend_from_slice(&[0, 0, 0, 6, 0, 0, 0, 1, 0x01, 0xE0]);
    let body: Vec<u8> = vec![
        0x00, 0xFF, 0x51, 0x03, tempo[0], tempo[1], tempo[2], // tempo
        0x83, 0x60, 0x90, 0x3C, 0x40, // 480 ticks later: note on
        0x00, 0xFF, 0x2F, 0x00, // end of track
    ];
    d.extend_from_slice(b"MTrk");
    d.extend_from_slice(&(body.len() as u32).to_be_bytes());
    d.extend_from_slice(&body);
    d
}

#[test]
fn sniff_names_the_kinds() {
    assert_eq!(sniff(b"MThd\0\0"), "mid");
    assert_eq!(sniff(b"RIFF1234WAVE"), "wav");
    assert_eq!(sniff(b"#!AMR\n"), "amr");
    assert_eq!(sniff(b"ID3\x03"), "mp3");
    assert_eq!(sniff(&[0xFF, 0xFB, 0x90]), "mp3");
    assert_eq!(sniff(&[0xFF, 0xF3]), "mp3");
    assert_eq!(sniff(b"hello"), "bin");
    assert_eq!(sniff(b""), "bin");
    assert_eq!(sniff(b"MTh"), "bin");
}

#[test]
fn midi_one_beat_at_default_tempo() {
    // 480 ticks at 480 ticks per beat and 500000 us per beat: half a second.
    assert_eq!(midi_duration_ms(&midi([0x07, 0xA1, 0x20])), 500);
}

#[test]
fn midi_one_beat_at_one_second_per_beat() {
    assert_eq!(midi_duration_ms(&midi([0x0F, 0x42, 0x40])), 1000);
}

#[test]
fn midi_without_tracks_is_one_second() {
    let d = midi([0x07, 0xA1, 0x20]);
    assert_eq!(midi_duration_ms(&d[..14]), 1000);
    assert_eq!(midi_duration_ms(b"not midi at all"), 1000);
}

#[test]
fn play_duration_by_kind() {
    let mut wav = b"RIFF".to_vec();
    wav.resize(8000, 0);
    assert_eq!(play_duration(&wav), 1000);
    let mut mp3 = b"ID3".to_vec();
    mp3.resize(4000, 0);
    assert_eq!(play_duration(&mp3), 1000);
    assert_eq!(play_duration(b"RIFF...."), 500);
    assert_eq!(play_duration(&midi([0x0F, 0x42, 0x40])), 1000);
}

#[test]
fn play_then_stop_at_the_end() {
    let mut a = Audio::default();
    let d = midi([0x07, 0xA1, 0x20]);
    assert_eq!(a.play_data(&d, false, 100, "bgm", Some("/tmp/s.mid".to_string())), 1);
    assert_eq!(a.state, PLAYING);
    assert_eq!(a.ends_at, 600);
    assert_eq!(
        a.events,
        vec![r#"{"op":"play","path":"/tmp/s.mid","loop":false,"kind":"mid","name":"bgm"}"#.to_string()]
    );
    a.tick(599);
    assert_eq!(a.state, PLAYING);
    assert_eq!(a.events.len(), 1);
    a.tick(600);
    assert_eq!(a.state, STOPPED);
    assert_eq!(a.events[1], r#"{"op":"stop"}"#);
}

#[test]
fn looping_sound_restarts() {
    let mut a = Audio::default();
    assert_eq!(a.play_data(b"RIFFdata", true, 0, "x\"y", None), 1);
    assert_eq!(
        a.events[0],
        r#"{"op":"play","path":null,"loop":true,"kind":"wav","name":"x\"y"}"#
    );
    a.tick(500);
    assert_eq!(a.state, PLAYING);
    assert_eq!(a.ends_at, 1500);
    assert_eq!(a.events.len(), 1);
}

#[test]
fn empty_sound_stops_the_channel() {
    let mut a = Audio::default();
    a.play_data(b"RIFFdata", false, 0, "a", None);
    assert_eq!(a.play_data(b"", false, 10, "b", None), 0);
    assert_eq!(a.state, STOPPED);
    assert_eq!(a.events.len(), 1);
}
