//! Sound playback bookkeeping: what kind of file a sound is, how long it plays, and
//! the play / stop events handed to the host.
use vstd::prelude::*;
use crate::session::{json_str, spec_json_str};

verus! {

pub const STOPPED: u32 = 0;
pub const PLAYING: u32 = 1;
pub const PAUSED: u32 = 2;

/// Whether `d` starts with `m`.
pub open spec fn starts(d: Seq<u8>, m: Seq<u8>) -> bool {
    m.len() <= d.len() && d.subrange(0, m.len() as int) == m
}

/// The kind of sound the leading bytes announce: 0 MIDI, 1 WAV, 2 AMR, 3 MP3, 4 unknown.
pub open spec fn spec_kind(d: Seq<u8>) -> u8 {
    if starts(d, seq![0x4Du8, 0x54, 0x68, 0x64]) {
        0
    } else if starts(d, seq![0x52u8, 0x49, 0x46, 0x46]) {
        1
    } else if starts(d, seq![0x23u8, 0x21, 0x41, 0x4D, 0x52]) {
        2
    } else if starts(d, seq![0x49u8, 0x44, 0x33]) || starts(d, seq![0xFFu8, 0xFB])
        || starts(d, seq![0xFFu8, 0xF3]) || starts(d, seq![0xFFu8, 0xE3]) || starts(d, seq![0xFFu8, 0xF2]) {
        3
    } else {
        4
    }
}

/// The file extension of a kind of sound.
pub open spec fn kind_ext(k: u8) -> Seq<char> {
    if k == 0 { "mid"@ } else if k == 1 { "wav"@ } else if k == 2 { "amr"@ } else if k == 3 { "mp3"@ } else { "bin"@ }
}

/// The file extension that the leading bytes of a sound announce.
pub open spec fn spec_sniff(d: Seq<u8>) -> Seq<char> {
    kind_ext(spec_kind(d))
}

fn starts_with(d: &[u8], m: &[u8]) -> (r: bool)
    ensures
        r == starts(d@, m@),
{
    if m.len() > d.len() {
        return false;
    }
    let mut i: usize = 0;
    while i < m.len()
        invariant
            i <= m.len() <= d.len(),
            forall|j: int| 0 <= j < i ==> d@[j] == m@[j],
        decreases m.len() - i,
    {
        if d[i] != m[i] {
            assert(d@.subrange(0, m.len() as int)[i as int] != m@[i as int]);
            return false;
        }
        i = i + 1;
    }
    assert(d@.subrange(0, m.len() as int) =~= m@);
    true
}

fn kind(d: &[u8]) -> (r: u8)
    ensures
        r == spec_kind(d@),
{
    if starts_with(d, &[0x4D, 0x54, 0x68, 0x64]) {
        0
    } else if starts_with(d, &[0x52, 0x49, 0x46, 0x46]) {
        1
    } else if starts_with(d, &[0x23, 0x21, 0x41, 0x4D, 0x52]) {
        2
    } else if starts_with(d, &[0x49, 0x44, 0x33]) || starts_with(d, &[0xFF, 0xFB]) || starts_with(d, &[0xFF, 0xF3])
        || starts_with(d, &[0xFF, 0xE3]) || starts_with(d, &[0xFF, 0xF2]) {
        3
    } else {
        4
    }
}

fn ext_of(k: u8) -> (r: &'static str)
    ensures
        r@ == kind_ext(k),
{
    if k == 0 {
        "mid"
    } else if k == 1 {
        "wav"
    } else if k == 2 {
        "amr"
    } else if k == 3 {
        "mp3"
    } else {
        "bin"
    }
}

/// The file extension that the leading bytes of a sound announce: `mid`, `wav`,
/// `amr`, `mp3`, or `bin` when none does.
pub fn sniff(d: &[u8]) -> (r: &'static str)
    ensures
        r@ == spec_sniff(d@),
{
    ext_of(kind(d))
}

// ---------------------------------------------------------------------------
// MIDI length

/// A MIDI variable-length number from `p` on (seven bits per byte, high bit set on
/// all bytes but the last), accumulated onto `acc` in 64 bits; and where it ends.
pub open spec fn midi_vlq(body: Seq<u8>, p: int, acc: u64) -> (u64, int)
    decreases body.len() - p,
{
    if p < 0 || p >= body.len() {
        (acc, p)
    } else {
        let b = body[p];
        let acc2 = (acc << 7u64) | ((b & 0x7F) as u64);
        if b & 0x80 == 0 {
            (acc2, p + 1)
        } else {
            midi_vlq(body, p + 1, acc2)
        }
    }
}

/// A variable-length number ends no earlier than it starts, and past its first byte
/// when that byte exists.
pub proof fn lemma_vlq_advances(body: Seq<u8>, p: int, acc: u64)
    requires
        0 <= p,
    ensures
        p <= midi_vlq(body, p, acc).1,
        p < body.len() ==> p + 1 <= midi_vlq(body, p, acc).1 <= body.len(),
    decreases body.len() - p,
{
    if p < body.len() {
        let b = body[p];
        let acc2 = (acc << 7u64) | ((b & 0x7F) as u64);
        if b & 0x80 != 0 {
            lemma_vlq_advances(body, p + 1, acc2);
        }
    }
}

/// The tempo set by a tempo meta event whose three data bytes start at `p`.
pub open spec fn tempo_at(body: Seq<u8>, p: int) -> u64 {
    (body[p] as int * 0x1_0000 + body[p + 1] as int * 0x100 + body[p + 2] as int) as u64
}

/// The tick count and tempo after the events of a track from `p` on: each event adds
/// its delta time; status bytes below 0x80 reuse the running status; a meta event
/// 0x51 of length 3 sets the tempo; other events are skipped by their length.
pub open spec fn midi_track(body: Seq<u8>, p: int, t: int, run: u8, tempo: u64) -> (int, u64)
    decreases body.len() - p,
{
    if p < 0 || p >= body.len() {
        (t, tempo)
    } else {
        proof {
            lemma_vlq_advances(body, p, 0);
        }
        let (dt, p1) = midi_vlq(body, p, 0);
        let t1 = t + dt;
        if p1 >= body.len() {
            (t1, tempo)
        } else {
            let s0 = body[p1];
            let st = if s0 < 0x80 { run } else { s0 };
            let p2 = if s0 < 0x80 { p1 } else { p1 + 1 };
            let run2 = if s0 < 0x80 { run } else { s0 };
            if st == 0xFF {
                if p2 >= body.len() {
                    (t1, tempo)
                } else {
                    let mt = body[p2];
                    proof {
                        lemma_vlq_advances(body, p2 + 1, 0);
                    }
                    let (ln2, p3) = midi_vlq(body, p2 + 1, 0);
                    let tempo2 = if mt == 0x51 && ln2 == 3 && p3 + 3 <= body.len() { tempo_at(body, p3) } else { tempo };
                    let next = p3 + ln2;
                    if next >= body.len() { (t1, tempo2) } else { midi_track(body, next, t1, run2, tempo2) }
                }
            } else {
                let next = if st & 0xF0 == 0xC0 || st & 0xF0 == 0xD0 {
                    p2 + 1
                } else if st & 0xF0 == 0xF0 {
                    p2
                } else {
                    p2 + 2
                };
                if next >= body.len() { (t1, tempo) } else { midi_track(body, next, t1, run2, tempo) }
            }
        }
    }
}

/// Big-endian u32 at `at`.
pub open spec fn be32(d: Seq<u8>, at: int) -> int {
    d[at] as int * 0x100_0000 + d[at + 1] as int * 0x1_0000 + d[at + 2] as int * 0x100 + d[at + 3] as int
}

/// The longest track (in ticks) and the tempo after the chunks from `o` on.
pub open spec fn midi_chunks(d: Seq<u8>, o: int, ticks: int, tempo: u64) -> (int, u64)
    decreases d.len() - o,
{
    if o < 0 || o + 8 > d.len() {
        (ticks, tempo)
    } else {
        let ln = be32(d, o + 4);
        let end = if o + 8 + ln <= d.len() { o + 8 + ln } else { d.len() as int };
        let body = d.subrange(o + 8, end);
        let r: (int, u64) = if d.subrange(o, o + 4) == seq![0x4Du8, 0x54, 0x72, 0x6B] {
            let tr = midi_track(body, 0, 0, 0, tempo);
            (if tr.0 > ticks { tr.0 } else { ticks }, tr.1)
        } else {
            (ticks, tempo)
        };
        let next = o + 8 + ln;
        if next + 8 > d.len() { r } else { midi_chunks(d, next, r.0, r.1) }
    }
}

/// The signed 16-bit division field of a MIDI header.
pub open spec fn midi_division(d: Seq<u8>) -> int {
    let u = d[12] as int * 256 + d[13] as int;
    if u >= 0x8000 { u - 0x1_0000 } else { u }
}

/// How long a MIDI file plays, in milliseconds: the longest track's ticks times the
/// tempo (microseconds per beat) over the division (ticks per beat); 1000 when the
/// bytes are no MIDI file or give no length. The result saturates at `u64::MAX`.
pub open spec fn spec_midi_duration(d: Seq<u8>) -> u64 {
    if !starts(d, seq![0x4Du8, 0x54, 0x68, 0x64]) || d.len() < 14 {
        1000
    } else {
        let div = midi_division(d);
        let (ticks, tempo) = midi_chunks(d, 14, 0, 500_000);
        if div > 0 && ticks > 0 {
            let ms = ticks * tempo / div / 1000;
            if ms > u64::MAX { u64::MAX } else { ms as u64 }
        } else {
            1000
        }
    }
}

proof fn lemma_track_ticks(body: Seq<u8>, p: int, t: int, run: u8, tempo: u64, tempo2: u64)
    ensures
        midi_track(body, p, t, run, tempo).0 == t + midi_track(body, p, 0, run, tempo2).0,
    decreases body.len() - p,
{
    if 0 <= p < body.len() {
        lemma_vlq_advances(body, p, 0);
        let (dt, p1) = midi_vlq(body, p, 0);
        if p1 < body.len() {
            let s0 = body[p1];
            let st = if s0 < 0x80 { run } else { s0 };
            let p2 = if s0 < 0x80 { p1 } else { p1 + 1 };
            let run2 = if s0 < 0x80 { run } else { s0 };
            if st == 0xFF {
                if p2 < body.len() {
                    let mt = body[p2];
                    lemma_vlq_advances(body, p2 + 1, 0);
                    let (ln2, p3) = midi_vlq(body, p2 + 1, 0);
                    let ta = if mt == 0x51 && ln2 == 3 && p3 + 3 <= body.len() { tempo_at(body, p3) } else { tempo };
                    let tb = if mt == 0x51 && ln2 == 3 && p3 + 3 <= body.len() { tempo_at(body, p3) } else { tempo2 };
                    let next = p3 + ln2;
                    if next < body.len() {
                        lemma_track_ticks(body, next, t + dt, run2, ta, tb);
                        lemma_track_ticks(body, next, dt as int, run2, tb, tb);
                    }
                }
            } else {
                let next = if st & 0xF0 == 0xC0 || st & 0xF0 == 0xD0 { p2 + 1 } else if st & 0xF0 == 0xF0 { p2 } else { p2 + 2 };
                if next < body.len() {
                    lemma_track_ticks(body, next, t + dt, run2, tempo, tempo2);
                    lemma_track_ticks(body, next, dt as int, run2, tempo2, tempo2);
                }
            }
        }
    }
}

proof fn lemma_chunks_ge(d: Seq<u8>, o: int, ticks: int, tempo: u64)
    ensures
        midi_chunks(d, o, ticks, tempo).0 >= ticks,
    decreases d.len() - o,
{
    if !(o < 0 || o + 8 > d.len()) {
        let ln = be32(d, o + 4);
        let end = if o + 8 + ln <= d.len() { o + 8 + ln } else { d.len() as int };
        let body = d.subrange(o + 8, end);
        let r: (int, u64) = if d.subrange(o, o + 4) == seq![0x4Du8, 0x54, 0x72, 0x6B] {
            let tr = midi_track(body, 0, 0, 0, tempo);
            (if tr.0 > ticks { tr.0 } else { ticks }, tr.1)
        } else {
            (ticks, tempo)
        };
        let next = o + 8 + ln;
        if next + 8 <= d.len() {
            lemma_chunks_ge(d, next, r.0, r.1);
        }
    }
}

/// The ticks of a track are the sum of its events' delta times: they add to the
/// count they start from and do not depend on the tempo in force; and the length of
/// a file is at least that of its first track (the longest track counts).
pub proof fn midi_ticks_law(body: Seq<u8>, t: int, tempo: u64, tempo2: u64, d: Seq<u8>, o: int, ticks: int)
    ensures
        midi_track(body, 0, t, 0, tempo).0 == t + midi_track(body, 0, 0, 0, tempo2).0,
        midi_chunks(d, o, ticks, tempo).0 >= ticks,
        (0 <= o && o + 8 <= d.len() && d.subrange(o, o + 4) == seq![0x4Du8, 0x54, 0x72, 0x6B]) ==> ({
            let ln = be32(d, o + 4);
            let end = if o + 8 + ln <= d.len() { o + 8 + ln } else { d.len() as int };
            midi_chunks(d, o, ticks, tempo).0 >= midi_track(d.subrange(o + 8, end), 0, 0, 0, tempo).0
        }),
{
    lemma_track_ticks(body, 0, t, 0, tempo, tempo2);
    lemma_chunks_ge(d, o, ticks, tempo);
    if 0 <= o && o + 8 <= d.len() && d.subrange(o, o + 4) == seq![0x4Du8, 0x54, 0x72, 0x6B] {
        let ln = be32(d, o + 4);
        let end = if o + 8 + ln <= d.len() { o + 8 + ln } else { d.len() as int };
        let body2 = d.subrange(o + 8, end);
        let tr = midi_track(body2, 0, 0, 0, tempo);
        let next = o + 8 + ln;
        if next + 8 <= d.len() {
            lemma_chunks_ge(d, next, if tr.0 > ticks { tr.0 } else { ticks }, tr.1);
        }
    }
}

/// A MIDI file's length: bytes that are no MIDI file (no `MThd`, or shorter than
/// its 14-byte header) play 1000 ms; so does a file with no positive division or no
/// ticks; otherwise the longest track's ticks at the last tempo met (500000 us a
/// beat by default) over the division, in whole milliseconds.
pub proof fn midi_length_law(d: Seq<u8>)
    ensures
        (!starts(d, seq![0x4Du8, 0x54, 0x68, 0x64]) || d.len() < 14) ==> spec_midi_duration(d) == 1000,
        (starts(d, seq![0x4Du8, 0x54, 0x68, 0x64]) && d.len() >= 14) ==> ({
            let div = midi_division(d);
            let (ticks, tempo) = midi_chunks(d, 14, 0, 500_000);
            &&& !(div > 0 && ticks > 0) ==> spec_midi_duration(d) == 1000
            &&& (div > 0 && ticks > 0 && ticks * tempo / div / 1000 <= u64::MAX)
                ==> spec_midi_duration(d) as int == ticks * tempo / div / 1000
        }),
{
}

fn read_vlq(body: &[u8], p: usize) -> (r: (u64, usize))
    requires
        p < body.len(),
    ensures
        (r.0, r.1 as int) == midi_vlq(body@, p as int, 0),
        p + 1 <= r.1 <= body.len(),
{
    proof {
        lemma_vlq_advances(body@, p as int, 0);
    }
    let ghost target = midi_vlq(body@, p as int, 0);
    proof {
        reveal_with_fuel(midi_vlq, 2);
    }
    let mut acc: u64 = 0;
    let mut q: usize = p;
    loop
        invariant
            p <= q < body.len(),
            target == midi_vlq(body@, p as int, 0),
            target == midi_vlq(body@, q as int, acc),
        decreases body.len() - q,
    {
        proof {
            reveal_with_fuel(midi_vlq, 2);
        }
        let b = body[q];
        acc = (acc << 7u64) | ((b & 0x7F) as u64);
        q = q + 1;
        if b & 0x80 == 0 || q >= body.len() {
            assert(q >= body.len() ==> midi_vlq(body@, q as int, acc) == (acc, q as int));
            return (acc, q);
        }
    }
}

/// The tick count and tempo after the events of one track (see `midi_track`).
fn track_ticks(body: &[u8], tempo0: u64) -> (r: (u128, u64))
    requires
        tempo0 < 0x100_0000,
    ensures
        (r.0 as int, r.1) == midi_track(body@, 0, 0, 0, tempo0),
        r.1 < 0x100_0000,
{
    let ghost target = midi_track(body@, 0, 0, 0, tempo0);
    let n = body.len();
    let mut t: u128 = 0;
    let mut p: u128 = 0;
    let mut run: u8 = 0;
    let mut tempo: u64 = tempo0;
    while p < n as u128
        invariant
            n == body.len(),
            tempo < 0x100_0000,
            target == midi_track(body@, 0, 0, 0, tempo0),
            target == midi_track(body@, p as int, t as int, run, tempo),
            t as int <= p as int * 0xFFFF_FFFF_FFFF_FFFF,
            p as int <= n as int + 0x1_0000_0000_0000_0002,
        decreases n as int + 0x1_0000_0000_0000_0002 - p as int,
    {
        let (dt, p1) = read_vlq(body, p as usize);
        assert(t as int + dt as int <= p1 as int * 0xFFFF_FFFF_FFFF_FFFF) by (nonlinear_arith)
            requires
                t as int <= p as int * 0xFFFF_FFFF_FFFF_FFFF,
                p + 1 <= p1,
                dt <= 0xFFFF_FFFF_FFFF_FFFF,
        ;
        assert(p1 as int * 0xFFFF_FFFF_FFFF_FFFF < 0x1_0000_0000_0000_0000_0000_0000_0000_0000) by (nonlinear_arith)
            requires
                p1 <= 0xFFFF_FFFF_FFFF_FFFF,
        ;
        t = t + dt as u128;
        if p1 >= n {
            return (t, tempo);
        }
        let s0 = body[p1];
        let st = if s0 < 0x80 { run } else { s0 };
        let p2 = if s0 < 0x80 { p1 } else { p1 + 1 };
        if s0 >= 0x80 {
            run = s0;
        }
        let next: u128;
        if st == 0xFF {
            if p2 >= n {
                return (t, tempo);
            }
            let mt = body[p2];
            let (ln2, p3) = if p2 + 1 < n { read_vlq(body, p2 + 1) } else { (0u64, p2 + 1) };
            if mt == 0x51 && ln2 == 3 && p3 <= n && 3 <= n - p3 {
                tempo = ((body[p3] as u64) * 0x1_0000 + (body[p3 + 1] as u64) * 0x100 + body[p3 + 2] as u64) as u64;
            }
            next = p3 as u128 + ln2 as u128;
        } else if st & 0xF0 == 0xC0 || st & 0xF0 == 0xD0 {
            next = p2 as u128 + 1;
        } else if st & 0xF0 == 0xF0 {
            next = p2 as u128;
        } else {
            next = p2 as u128 + 2;
        }
        if next >= n as u128 {
            return (t, tempo);
        }
        p = next;
    }
    (t, tempo)
}

/// How long a MIDI file plays, in milliseconds (see `spec_midi_duration`).
pub fn midi_duration_ms(d: &[u8]) -> (r: u64)
    ensures
        r == spec_midi_duration(d@),
{
    if !starts_with(d, &[0x4D, 0x54, 0x68, 0x64]) || d.len() < 14 {
        return 1000;
    }
    let u: u32 = d[12] as u32 * 256 + d[13] as u32;
    let div: i64 = if u >= 0x8000 { u as i64 - 0x1_0000 } else { u as i64 };
    let ghost target = midi_chunks(d@, 14, 0, 500_000);
    let mut ticks: u128 = 0;
    let mut tempo: u64 = 500_000;
    let mut o: u128 = 14;
    while o + 8 <= d.len() as u128
        invariant
            target == midi_chunks(d@, 14, 0, 500_000),
            target == midi_chunks(d@, o as int, ticks as int, tempo),
            o <= d.len() as int + 0x1_0000_0010,
            tempo < 0x100_0000,
        decreases d.len() as int + 0x1_0000_0010 - o,
    {
        let oo = o as usize;
        let ln: u32 = (d[oo + 4] as u32) * 0x100_0000 + (d[oo + 5] as u32) * 0x1_0000 + (d[oo + 6] as u32) * 0x100 + d[oo + 7] as u32;
        let end: usize = if ln as u128 <= d.len() as u128 - (o + 8) { oo + 8 + ln as usize } else { d.len() };
        let is_trk = d[oo] == 0x4D && d[oo + 1] == 0x54 && d[oo + 2] == 0x72 && d[oo + 3] == 0x6B;
        proof {
            let tg = d@.subrange(o as int, o as int + 4);
            if is_trk {
                assert(tg =~= seq![0x4Du8, 0x54, 0x72, 0x6B]);
            } else {
                assert(tg[0] == d@[o as int] && tg[1] == d@[o + 1] && tg[2] == d@[o + 2] && tg[3] == d@[o + 3]);
            }
        }
        if is_trk {
            let (tt, tp) = track_ticks(&d[oo + 8..end], tempo);
            if tt > ticks {
                ticks = tt;
            }
            tempo = tp;
        }
        o = o + 8 + ln as u128;
    }
    assert(target == (ticks as int, tempo));
    if div > 0 && ticks > 0 {
        if tempo == 0 {
            assert(ticks as int * tempo as int / div as int / 1000 == 0) by (nonlinear_arith)
                requires
                    tempo == 0,
                    div >= 1,
            ;
            return 0;
        }
        if ticks >= 0x10_0000_0000_0000_0000_0000_0000 {
            assert(ticks as int * tempo as int / div as int / 1000 > u64::MAX) by (nonlinear_arith)
                requires
                    ticks >= 0x10_0000_0000_0000_0000_0000_0000,
                    tempo >= 1,
                    1 <= div <= 0x7FFF,
            ;
            return u64::MAX;
        }
        assert(ticks as int * tempo as int <= 0x10_0000_0000_0000_0000_0000_0000 * 0x100_0000) by (nonlinear_arith)
            requires
                ticks < 0x10_0000_0000_0000_0000_0000_0000,
                tempo < 0x100_0000,
        ;
        let ms: u128 = ticks * tempo as u128 / div as u128 / 1000;
        if ms > u64::MAX as u128 { u64::MAX } else { ms as u64 }
    } else {
        1000
    }
}

// ---------------------------------------------------------------------------
// Playback state

/// How long a sound is taken to play, in milliseconds: a MIDI file by its events; an
/// MP3 at 32 kbit/s and anything else at 8 kB/s, at least half a second either way.
pub open spec fn spec_play_duration(d: Seq<u8>) -> u64 {
    let k = spec_kind(d);
    if k == 0 {
        spec_midi_duration(d)
    } else if k == 3 {
        let v = d.len() * 8 / 32;
        if v > 500 { v as u64 } else { 500 }
    } else {
        let v = d.len() / 8;
        if v > 500 { v as u64 } else { 500 }
    }
}

/// How long a sound is taken to play, in milliseconds (see `spec_play_duration`).
pub fn play_duration(d: &[u8]) -> (r: u64)
    ensures
        r == spec_play_duration(d@),
{
    let k = kind(d);
    if k == 0 {
        midi_duration_ms(d)
    } else if k == 3 {
        let v = d.len() / 4;
        assert(d.len() * 8 / 32 == d.len() / 4);
        if v > 500 { v as u64 } else { 500 }
    } else {
        let v = d.len() / 8;
        if v > 500 { v as u64 } else { 500 }
    }
}

/// The play event for a sound of kind `kind` named `name`, dumped to `path` (when it
/// could be written out).
pub open spec fn play_event(path: Option<Seq<char>>, looping: bool, kind: Seq<char>, name: Seq<char>) -> Seq<char> {
    "{\"op\":\"play\",\"path\":"@
        + (match path { Some(p) => spec_json_str(p), None => "null"@ })
        + ",\"loop\":"@ + (if looping { "true"@ } else { "false"@ })
        + ",\"kind\":\""@ + kind + "\",\"name\":"@ + spec_json_str(name) + "}"@
}

/// The stop event.
pub open spec fn stop_event() -> Seq<char> {
    "{\"op\":\"stop\"}"@
}

/// The playback state of the sound channel and the events it has produced.
#[derive(Debug)]
pub struct Audio {
    pub state: u32,
    pub volume: u32,
    /// When the current sound ends, in milliseconds.
    pub ends_at: u64,
    pub looping: bool,
    /// The play and stop events, as JSON objects, oldest first.
    pub events: Vec<String>,
}

impl Default for Audio {
    fn default() -> (a: Audio)
        ensures
            a.state == STOPPED && a.volume == 0 && a.ends_at == 0 && !a.looping,
            a.events@.len() == 0,
    {
        Audio { state: STOPPED, volume: 0, ends_at: 0, looping: false, events: Vec::new() }
    }
}

impl Audio {
    /// Start playing `data` at time `now`; `path` is where the sound was written out
    /// for the host, if it could be. An empty sound just stops the channel (result 0);
    /// otherwise the channel plays until `now` plus the sound's duration, a play event
    /// is recorded, and the result is 1.
    pub fn play_data(&mut self, data: &[u8], looping: bool, now: u64, name: &str, path: Option<String>) -> (r: u32)
        requires
            data@.len() > 0 ==> now + spec_play_duration(data@) <= u64::MAX,
        ensures
            data@.len() == 0 ==> r == 0 && final(self).state == STOPPED && final(self).events@ == old(self).events@
                && final(self).ends_at == old(self).ends_at && final(self).looping == old(self).looping,
            data@.len() > 0 ==> {
                &&& r == 1
                &&& final(self).state == PLAYING
                &&& final(self).looping == looping
                &&& final(self).ends_at == now + spec_play_duration(data@)
                &&& final(self).events@.len() == old(self).events@.len() + 1
                &&& final(self).events@.drop_last() == old(self).events@
                &&& final(self).events@.last()@ == play_event(
                    match path { Some(p) => Some(p@), None => None },
                    looping,
                    spec_sniff(data@),
                    name@,
                )
            },
            final(self).volume == old(self).volume,
    {
        if data.len() == 0 {
            self.state = STOPPED;
            return 0;
        }
        let dur = play_duration(data);
        self.looping = looping;
        self.state = PLAYING;
        self.ends_at = now + dur;
        let kind = sniff(data);
        let mut ev = "{\"op\":\"play\",\"path\":".to_owned();
        match &path {
            Some(p) => {
                let j = json_str(p.as_str());
                ev.append(j.as_str());
            },
            None => {
                ev.append("null");
            },
        }
        ev.append(",\"loop\":");
        if looping {
            ev.append("true");
        } else {
            ev.append("false");
        }
        ev.append(",\"kind\":\"");
        ev.append(kind);
        ev.append("\",\"name\":");
        let jn = json_str(name);
        ev.append(jn.as_str());
        ev.append("}");
        let ghost e0 = self.events@;
        self.events.push(ev);
        assert(self.events@.drop_last() =~= e0);
        1
    }

    /// Advance the clock to `now`: a sound that has ended starts over (looping, for
    /// another second) or stops, recording a stop event.
    pub fn tick(&mut self, now: u64)
        requires
            old(self).state == PLAYING && now >= old(self).ends_at && old(self).looping ==> now + 1000 <= u64::MAX,
        ensures
            old(self).state == PLAYING && now >= old(self).ends_at && old(self).looping ==> final(self).ends_at == now + 1000
                && final(self).state == PLAYING && final(self).events@ == old(self).events@,
            old(self).state == PLAYING && now >= old(self).ends_at && !old(self).looping ==> final(self).state == STOPPED
                && final(self).ends_at == old(self).ends_at
                && final(self).events@.len() == old(self).events@.len() + 1
                && final(self).events@.drop_last() == old(self).events@
                && final(self).events@.last()@ == stop_event(),
            !(old(self).state == PLAYING && now >= old(self).ends_at) ==> final(self).state == old(self).state
                && final(self).ends_at == old(self).ends_at && final(self).events@ == old(self).events@,
            final(self).looping == old(self).looping,
            final(self).volume == old(self).volume,
    {
        if self.state == PLAYING && now >= self.ends_at {
            if self.looping {
                let d = if self.ends_at > now { self.ends_at - now } else { 0 };
                self.ends_at = now + if d == 0 { 1000 } else { d };
            } else {
                self.state = STOPPED;
                let ghost e0 = self.events@;
                self.events.push("{\"op\":\"stop\"}".to_owned());
                assert(self.events@.drop_last() =~= e0);
            }
        }
    }
}


// ---------------------------------------------------------------------------
// File names for sounds written out

/// Whether `name` ends with `.` and `ext`, the extension's letters in either case
/// (what `name.to_lowercase().ends_with(".ext")` gives for the lower-case ASCII
/// extensions a sound can have).
pub open spec fn has_ext(name: Seq<char>, ext: Seq<char>) -> bool {
    let n = name.len() as int;
    let k = ext.len() as int;
    n >= k + 1 && name[n - k - 1] == '.' && forall|i: int| 0 <= i < k ==> #[trigger] lower_ascii(name[n - k + i]) == ext[i]
}

/// A character with ASCII capitals taken to lower case.
pub open spec fn lower_ascii(c: char) -> char {
    if 65 <= (c as u32) <= 90 { ((c as u32) + 32) as char } else { c }
}

/// A character fit for a file name: path separators become `_`.
pub open spec fn file_char(c: char) -> char {
    if c == '/' || c == '\\' { '_' } else { c }
}

/// The file a sound named `name` is written to: the name without its extension
/// (when it has the sound's), separators made `_`, then `.` and the extension that
/// the sound's bytes announce.
pub open spec fn spec_dump_name(data: Seq<u8>, name: Seq<char>) -> Seq<char> {
    let ext = spec_sniff(data);
    let base = if has_ext(name, ext) { name.take(name.len() - ext.len() - 1) } else { name };
    base.map_values(|c: char| file_char(c)) + "."@ + ext
}

fn ext_matches(cs: &Vec<char>, ext: &str) -> (r: bool)
    requires
        ext@.len() <= 3,
    ensures
        r == has_ext(cs@, ext@),
{
    let e = crate::session::chars_of(ext);
    let n = cs.len();
    let k = e.len();
    if n < k + 1 || cs[n - k - 1] != '.' {
        return false;
    }
    let mut i: usize = 0;
    while i < k
        invariant
            k == e@.len() == ext@.len() <= 3,
            e@ == ext@,
            n == cs@.len(),
            n >= k + 1,
            i <= k,
            forall|j: int| 0 <= j < i ==> #[trigger] lower_ascii(cs@[n - k + j]) == e@[j],
        decreases k - i,
    {
        let c = cs[n - k + i];
        let v = c as u32;
        let l = if 65 <= v && v <= 90 { char_from_code(v + 32) } else { c };
        if l != e[i] {
            assert(lower_ascii(cs@[n - k + i]) != ext@[i as int]);
            return false;
        }
        i = i + 1;
    }
    true
}

/// The character with code `v`, an ASCII letter.
fn char_from_code(v: u32) -> (c: char)
    requires
        97 <= v <= 122,
    ensures
        c == v as char,
{
    match core::char::from_u32(v) {
        Some(c) => c,
        None => 'a',
    }
}

/// The file a sound is written to (see `spec_dump_name`).
pub fn dump_name(data: &[u8], name: &str) -> (r: String)
    ensures
        r@ == spec_dump_name(data@, name@),
{
    let ext = sniff(data);
    proof {
        reveal_strlit("mid");
        reveal_strlit("wav");
        reveal_strlit("amr");
        reveal_strlit("mp3");
        reveal_strlit("bin");
    }
    let cs = crate::session::chars_of(name);
    let n = if ext_matches(&cs, ext) { cs.len() - ext.unicode_len() - 1 } else { cs.len() };
    let mut r = String::new();
    let mut i: usize = 0;
    while i < n
        invariant
            n <= cs@.len(),
            cs@ == name@,
            i <= n,
            r@ == cs@.take(i as int).map_values(|c: char| file_char(c)),
        decreases n - i,
    {
        let c = cs[i];
        let f = if c == '/' || c == '\\' { '_' } else { c };
        crate::strs::string_push(&mut r, f);
        assert(cs@.take(i + 1).map_values(|c: char| file_char(c)) =~= cs@.take(i as int).map_values(|c: char| file_char(c)).push(file_char(cs@[i as int])));
        i = i + 1;
    }
    r.append(".");
    r.append(ext);
    proof {
        let ghost e = spec_sniff(data@);
        let ghost base = if has_ext(name@, e) { name@.take(name@.len() - e.len() - 1) } else { name@ };
        assert(cs@.take(n as int) =~= base);
    }
    r
}

} // verus!

verus! {

proof fn lemma_vlq_shift(a: Seq<u8>, b: Seq<u8>, q: int, acc: u64)
    requires
        0 <= q,
    ensures
        midi_vlq(a + b, a.len() + q, acc) == (midi_vlq(b, q, acc).0, a.len() + midi_vlq(b, q, acc).1),
    decreases b.len() - q,
{
    let ab = a + b;
    if q < b.len() {
        assert(ab[a.len() + q] == b[q]);
        let bb = b[q];
        let acc2 = (acc << 7u64) | ((bb & 0x7F) as u64);
        if bb & 0x80 != 0 {
            lemma_vlq_shift(a, b, q + 1, acc2);
            assert(a.len() + q + 1 == a.len() + (q + 1));
        }
    }
}

proof fn lemma_track_shift(a: Seq<u8>, b: Seq<u8>, q: int, t: int, run: u8, tempo: u64)
    requires
        0 <= q,
    ensures
        midi_track(a + b, a.len() + q, t, run, tempo) == midi_track(b, q, t, run, tempo),
    decreases b.len() - q,
{
    let ab = a + b;
    let o = a.len() as int;
    if q < b.len() {
        lemma_vlq_advances(b, q, 0);
        lemma_vlq_shift(a, b, q, 0);
        let (dt, p1) = midi_vlq(b, q, 0);
        if p1 < b.len() {
            assert(ab[o + p1] == b[p1]);
            let s0 = b[p1];
            let st = if s0 < 0x80 { run } else { s0 };
            let p2 = if s0 < 0x80 { p1 } else { p1 + 1 };
            let run2 = if s0 < 0x80 { run } else { s0 };
            if st == 0xFF {
                if p2 < b.len() {
                    assert(ab[o + p2] == b[p2]);
                    lemma_vlq_advances(b, p2 + 1, 0);
                    lemma_vlq_shift(a, b, p2 + 1, 0);
                    let mt = b[p2];
                    let (ln2, p3) = midi_vlq(b, p2 + 1, 0);
                    if mt == 0x51 && ln2 == 3 && p3 + 3 <= b.len() {
                        assert(ab[o + p3] == b[p3]);
                        assert(ab[o + p3 + 1] == b[p3 + 1]);
                        assert(ab[o + p3 + 2] == b[p3 + 2]);
                        assert(tempo_at(ab, o + p3) == tempo_at(b, p3));
                    }
                    let tempo2 = if mt == 0x51 && ln2 == 3 && p3 + 3 <= b.len() { tempo_at(b, p3) } else { tempo };
                    let next = p3 + ln2;
                    if next < b.len() {
                        lemma_track_shift(a, b, next, t + dt, run2, tempo2);
                        assert(o + p3 + ln2 == o + next);
                    }
                }
            } else {
                let next = if st & 0xF0 == 0xC0 || st & 0xF0 == 0xD0 { p2 + 1 } else if st & 0xF0 == 0xF0 { p2 } else { p2 + 2 };
                if next < b.len() {
                    lemma_track_shift(a, b, next, t + dt, run2, tempo);
                }
            }
        }
    }
}

/// Whether the first event of a track carries its own status byte.
pub open spec fn first_status_explicit(body: Seq<u8>) -> bool {
    let p1 = midi_vlq(body, 0, 0).1;
    p1 < body.len() ==> body[p1] >= 0x80
}

proof fn lemma_track_run_free(body: Seq<u8>, t: int, r1: u8, r2: u8, tempo: u64)
    requires
        first_status_explicit(body),
    ensures
        midi_track(body, 0, t, r1, tempo) == midi_track(body, 0, t, r2, tempo),
{
    lemma_vlq_advances(body, 0, 0);
}

/// Program change (0xCn) and channel pressure (0xDn) carry one data byte: a track
/// that starts with such an event, delta 0, counts the same ticks as the track
/// without it (when the track's next event has its own status byte).
pub proof fn one_data_byte_events(body: Seq<u8>, status: u8, data: u8, tempo: u64)
    requires
        status & 0xF0 == 0xC0 || status & 0xF0 == 0xD0,
        data < 0x80,
        first_status_explicit(body),
    ensures
        midi_track(seq![0x00u8, status, data] + body, 0, 0, 0, tempo).0 == midi_track(body, 0, 0, 0, tempo).0,
{
    let pre = seq![0x00u8, status, data];
    let ab = pre + body;
    assert(ab[0] == 0x00u8);
    assert(ab[1] == status);
    assert(status >= 0x80) by (bit_vector)
        requires
            status & 0xF0 == 0xC0 || status & 0xF0 == 0xD0,
    ;
    assert(status != 0xFF) by (bit_vector)
        requires
            status & 0xF0 == 0xC0 || status & 0xF0 == 0xD0,
    ;
    assert((0u64 << 7u64) | ((0u8 & 0x7Fu8) as u64) == 0u64) by (bit_vector);
    assert(0x00u8 & 0x80 == 0) by (bit_vector);
    assert(midi_vlq(ab, 0, 0) == (0u64, 1int));
    let st_hi = status & 0xF0;
    assert(st_hi == 0xC0 || st_hi == 0xD0);
    if body.len() > 0 {
        lemma_track_shift(pre, body, 0, 0, status, tempo);
        lemma_track_run_free(body, 0, status, 0, tempo);
        assert(pre.len() + 0 == 3);
        assert(midi_track(ab, 0, 0, 0, tempo) == midi_track(ab, 3, 0, status, tempo));
    } else {
        assert(ab.len() == 3);
        assert(midi_track(ab, 0, 0, 0, tempo) == (0int, tempo));
    }
}

} // verus!
