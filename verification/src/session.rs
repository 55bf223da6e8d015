//! What a host session exchanges with the emulated program: touch states, key and
//! touch input between frames, and the events reported to the host as JSON.
use vstd::prelude::*;
use crate::strs::string_push;
use crate::mem::hex_digit;

verus! {

/// The state of a touch (or mouse button) report.
#[derive(Clone, Copy, PartialEq, Eq, Debug, Structural)]
pub enum Touch {
    Down,
    Move,
    Up,
}

impl Touch {
    /// The touch state of a host code: 1 is up, 2 is move, anything else down.
    pub fn from_i32(v: i32) -> (t: Touch)
        ensures
            t == (if v == 1 { Touch::Up } else if v == 2 { Touch::Move } else { Touch::Down }),
    {
        match v {
            1 => Touch::Up,
            2 => Touch::Move,
            _ => Touch::Down,
        }
    }
}

/// Something the session reports to the host.
#[derive(Clone, Debug)]
pub enum Event {
    /// A sound event, as the JSON object the audio layer produced.
    Audio(String),
    /// The program asked to exit.
    Exit,
    /// A line of the program's log.
    Log(String),
}

// ---------------------------------------------------------------------------
// JSON strings

/// The JSON escape of one character: quote, backslash and the control characters
/// below 0x20 are escaped, everything else stands for itself.
pub open spec fn json_char(c: char) -> Seq<char> {
    if c == '"' {
        seq!['\\', '"']
    } else if c == '\\' {
        seq!['\\', '\\']
    } else if c == '\n' {
        seq!['\\', 'n']
    } else if c == '\r' {
        seq!['\\', 'r']
    } else if c == '\t' {
        seq!['\\', 't']
    } else if (c as u32) < 0x20 {
        seq!['\\', 'u', '0', '0', hex_digit((c as u32) as int / 16), hex_digit((c as u32) as int % 16)]
    } else {
        seq![c]
    }
}

/// The escaped characters of `s`.
pub open spec fn json_body(s: Seq<char>) -> Seq<char>
    decreases s.len(),
{
    if s.len() == 0 {
        Seq::empty()
    } else {
        json_body(s.drop_last()) + json_char(s.last())
    }
}

/// The value of a hexadecimal digit (lower case; 0 for any other character).
pub open spec fn hex_val(ch: char) -> int {
    let v = ch as u32 as int;
    if 48 <= v <= 57 { v - 48 } else if 97 <= v <= 102 { v - 87 } else { 0 }
}

/// The characters a JSON string body stands for: `\uXXXX` is the character of that
/// code, `\n`, `\r` and `\t` are the control characters, a backslash before any
/// other character stands for that character.
pub open spec fn json_unescape(t: Seq<char>) -> Seq<char>
    decreases t.len(),
{
    if t.len() == 0 {
        Seq::empty()
    } else if t[0] == '\\' && t.len() >= 2 {
        let e = t[1];
        if e == 'u' && t.len() >= 6 {
            let v = hex_val(t[2]) * 4096 + hex_val(t[3]) * 256 + hex_val(t[4]) * 16 + hex_val(t[5]);
            seq![(v as u32) as char] + json_unescape(t.subrange(6, t.len() as int))
        } else {
            let c = if e == 'n' { '\n' } else if e == 'r' { '\r' } else if e == 't' { '\t' } else { e };
            seq![c] + json_unescape(t.subrange(2, t.len() as int))
        }
    } else {
        seq![t[0]] + json_unescape(t.subrange(1, t.len() as int))
    }
}

proof fn lemma_hex_val(d: int)
    requires
        0 <= d < 16,
    ensures
        hex_val(hex_digit(d)) == d,
{
    let b: u8 = (if d < 10 { 48 + d } else { 87 + d }) as u8;
    assert((b as char) as u32 == b as u32) by {
        vstd::utf8::char_u32_cast(b as char, b as u32);
    }
}

proof fn lemma_unescape_char(c: char, t: Seq<char>)
    ensures
        json_unescape(json_char(c) + t) == seq![c] + json_unescape(t),
{
    let j = json_char(c);
    let u = j + t;
    if c == '"' || c == '\\' || c == '\n' || c == '\r' || c == '\t' {
        assert(u.subrange(2, u.len() as int) =~= t);
    } else if (c as u32) < 0x20 {
        let v = c as u32 as int;
        lemma_hex_val(v / 16);
        lemma_hex_val(v % 16);
        assert(hex_val('0') == 0);
        assert(u[2] == '0' && u[3] == '0');
        assert(u.subrange(6, u.len() as int) =~= t);
        assert(hex_val(u[4]) * 16 + hex_val(u[5]) == v);
        vstd::utf8::char_u32_cast(c, c as u32);
    } else {
        assert(u.subrange(1, u.len() as int) =~= t);
    }
}

proof fn lemma_body_front(s: Seq<char>)
    requires
        s.len() > 0,
    ensures
        json_body(s) == json_char(s[0]) + json_body(s.subrange(1, s.len() as int)),
    decreases s.len(),
{
    if s.len() == 1 {
        assert(json_body(s.drop_last()) == Seq::<char>::empty());
        assert(json_body(s.subrange(1, 1)) == Seq::<char>::empty());
        assert(json_body(s) =~= json_char(s[0]) + json_body(s.subrange(1, s.len() as int)));
    } else {
        lemma_body_front(s.drop_last());
        let r = s.subrange(1, s.len() as int);
        assert(r.drop_last() =~= s.drop_last().subrange(1, s.drop_last().len() as int));
        assert(r.last() == s.last());
        assert(json_body(s) =~= json_char(s[0]) + json_body(r));
    }
}

/// Escaping is undone by reading the escapes back: a string written as a JSON
/// string literal reads back as the same characters.
pub proof fn json_round_trip(s: Seq<char>)
    ensures
        json_unescape(json_body(s)) == s,
        spec_json_str(s) == seq!['"'] + json_body(s) + seq!['"'],
    decreases s.len(),
{
    if s.len() > 0 {
        let r = s.subrange(1, s.len() as int);
        lemma_body_front(s);
        json_round_trip(r);
        lemma_unescape_char(s[0], json_body(r));
        assert(seq![s[0]] + r =~= s);
    }
}

/// `s` as a JSON string literal.
pub open spec fn spec_json_str(s: Seq<char>) -> Seq<char> {
    seq!['"'] + json_body(s) + seq!['"']
}

fn push_json_char(o: &mut String, c: char)
    ensures
        final(o)@ == old(o)@ + json_char(c),
{
    if c == '"' {
        string_push(o, '\\');
        string_push(o, '"');
    } else if c == '\\' {
        string_push(o, '\\');
        string_push(o, '\\');
    } else if c == '\n' {
        string_push(o, '\\');
        string_push(o, 'n');
    } else if c == '\r' {
        string_push(o, '\\');
        string_push(o, 'r');
    } else if c == '\t' {
        string_push(o, '\\');
        string_push(o, 't');
    } else if (c as u32) < 0x20 {
        let v = c as u32;
        string_push(o, '\\');
        string_push(o, 'u');
        string_push(o, '0');
        string_push(o, '0');
        let hi = v / 16;
        let lo = v % 16;
        string_push(o, (if hi < 10 { 48 + hi } else { 87 + hi }) as u8 as char);
        string_push(o, (if lo < 10 { 48 + lo } else { 87 + lo }) as u8 as char);
    } else {
        string_push(o, c);
    }
    assert(final(o)@ =~= old(o)@ + json_char(c));
}

/// The characters of a string slice, in order.
pub fn chars_of(s: &str) -> (v: Vec<char>)
    ensures
        v@ == s@,
{
    let mut v: Vec<char> = Vec::new();
    broadcast use vstd::string::axiom_spec_iter;
    for c in it: s.chars()
        invariant
            v@ == it.seq().take(it.index() as int),
            it.seq() == s@,
    {
        v.push(c);
    }
    v
}

/// `s` as a JSON string literal, quotes included.
pub fn json_str(s: &str) -> (r: String)
    ensures
        r@ == spec_json_str(s@),
{
    let cs = chars_of(s);
    let mut o = String::new();
    string_push(&mut o, '"');
    let mut i: usize = 0;
    while i < cs.len()
        invariant
            i <= cs.len(),
            o@ == seq!['"'] + json_body(cs@.take(i as int)),
        decreases cs.len() - i,
    {
        push_json_char(&mut o, cs[i]);
        assert(cs@.take(i + 1).drop_last() =~= cs@.take(i as int));
        i = i + 1;
    }
    assert(cs@.take(cs.len() as int) =~= s@);
    string_push(&mut o, '"');
    o
}

// ---------------------------------------------------------------------------
// Events as JSON

/// Unicode white space, as `char::is_whitespace` has it.
pub open spec fn is_ws(c: char) -> bool {
    let v = c as u32;
    (0x09 <= v <= 0x0D) || v == 0x20 || v == 0x85 || v == 0xA0 || v == 0x1680 || (0x2000 <= v <= 0x200A)
        || v == 0x2028 || v == 0x2029 || v == 0x202F || v == 0x205F || v == 0x3000
}

fn ws(c: char) -> (r: bool)
    ensures
        r == is_ws(c),
{
    let v = c as u32;
    (0x09 <= v && v <= 0x0D) || v == 0x20 || v == 0x85 || v == 0xA0 || v == 0x1680 || (0x2000 <= v && v <= 0x200A)
        || v == 0x2028 || v == 0x2029 || v == 0x202F || v == 0x205F || v == 0x3000
}

/// The index of the first character from `i` on that is not white space.
pub open spec fn lead_ws(s: Seq<char>, i: int) -> int
    decreases s.len() - i,
{
    if i < 0 || i >= s.len() || !is_ws(s[i]) { if i < 0 { 0 } else if i > s.len() { s.len() as int } else { i } } else { lead_ws(s, i + 1) }
}

/// The end of `s.take(j)` with its trailing white space removed.
pub open spec fn trail_ws(s: Seq<char>, j: int) -> int
    decreases j,
{
    if j <= 0 || j > s.len() || !is_ws(s[j - 1]) { if j <= 0 { 0 } else if j > s.len() { s.len() as int } else { j } } else { trail_ws(s, j - 1) }
}

/// `s` without leading and trailing white space (`str::trim`).
pub open spec fn spec_trim(s: Seq<char>) -> Seq<char> {
    let a = lead_ws(s, 0);
    let b = trail_ws(s, s.len() as int);
    if a < b { s.subrange(a, b) } else { Seq::empty() }
}

/// `s` without one leading `{` and one trailing `}`, where present.
pub open spec fn strip_braces(s: Seq<char>) -> Seq<char> {
    let a = if s.len() > 0 && s[0] == '{' { s.drop_first() } else { s };
    if a.len() > 0 && a.last() == '}' { a.drop_last() } else { a }
}

/// The JSON object that reports an event to the host: a sound event's own fields
/// after `"kind":"audio"`, the exit, or a log line as text.
pub open spec fn spec_event_json(e: Event) -> Seq<char> {
    match e {
        Event::Audio(body) => "{\"kind\":\"audio\","@ + strip_braces(spec_trim(body@)) + "}"@,
        Event::Exit => "{\"kind\":\"exit\",\"why\":\"module\"}"@,
        Event::Log(t) => "{\"kind\":\"log\",\"text\":"@ + spec_json_str(t@) + "}"@,
    }
}

/// A log event's JSON object carries the log text as a JSON string that reads back
/// as that text.
pub proof fn log_event_reads_back(e: Event)
    ensures
        e matches Event::Log(t) ==> {
            &&& spec_event_json(e) == "{\"kind\":\"log\",\"text\":"@ + (seq!['"'] + json_body(t@) + seq!['"']) + "}"@
            &&& json_unescape(json_body(t@)) == t@
        },
{
    if let Event::Log(t) = e {
        json_round_trip(t@);
    }
}

fn push_chars(o: &mut String, v: &Vec<char>, a: usize, b: usize)
    requires
        a <= b <= v.len(),
    ensures
        final(o)@ == old(o)@ + v@.subrange(a as int, b as int),
{
    let mut i = a;
    while i < b
        invariant
            a <= i <= b <= v.len(),
            o@ == old(o)@ + v@.subrange(a as int, i as int),
        decreases b - i,
    {
        string_push(o, v[i]);
        i = i + 1;
        assert(o@ =~= old(o)@ + v@.subrange(a as int, i as int));
    }
}

/// Leading white space ends within the text, at a character that is not white space.
pub proof fn lemma_lead_ws(s: Seq<char>, i: int)
    requires
        0 <= i <= s.len(),
    ensures
        i <= lead_ws(s, i) <= s.len(),
        lead_ws(s, i) < s.len() ==> !is_ws(s[lead_ws(s, i)]),
    decreases s.len() - i,
{
    if i < s.len() && is_ws(s[i]) {
        lemma_lead_ws(s, i + 1);
    }
}

/// Trailing white space starts within the text, after a character that is not white
/// space.
pub proof fn lemma_trail_ws(s: Seq<char>, j: int)
    requires
        0 <= j <= s.len(),
    ensures
        0 <= trail_ws(s, j) <= j,
        trail_ws(s, j) > 0 ==> !is_ws(s[trail_ws(s, j) - 1]),
    decreases j,
{
    if j > 0 && is_ws(s[j - 1]) {
        lemma_trail_ws(s, j - 1);
    }
}

/// Where the text of `cs` lies without its leading and trailing white space.
pub fn trim_range(cs: &Vec<char>) -> (r: (usize, usize))
    ensures
        r.0 <= r.1 <= cs@.len(),
        cs@.subrange(r.0 as int, r.1 as int) == spec_trim(cs@),
{
    let n = cs.len();
    let mut a: usize = 0;
    while a < n && ws(cs[a])
        invariant
            a <= n == cs.len(),
            lead_ws(cs@, 0) == lead_ws(cs@, a as int),
        decreases n - a,
    {
        a = a + 1;
    }
    let mut b: usize = n;
    while b > 0 && ws(cs[b - 1])
        invariant
            b <= n == cs.len(),
            trail_ws(cs@, n as int) == trail_ws(cs@, b as int),
        decreases b,
    {
        b = b - 1;
    }
    proof {
        lemma_lead_ws(cs@, 0);
        lemma_trail_ws(cs@, n as int);
    }
    if a < b { (a, b) } else { (0, 0) }
}

impl Event {
    /// The JSON object that reports this event to the host (see `spec_event_json`).
    pub fn to_json(&self) -> (r: String)
        ensures
            r@ == spec_event_json(*self),
    {
        match self {
            Event::Audio(body) => {
                let cs = chars_of(body.as_str());
                let (a, b) = trim_range(&cs);
                let ghost t = spec_trim(cs@);
                let (mut x, mut y) = (a, b);
                if x < y && cs[x] == '{' {
                    x = x + 1;
                }
                if x < y && cs[y - 1] == '}' {
                    y = y - 1;
                }
                assert(cs@.subrange(x as int, y as int) =~= strip_braces(t));
                let mut o = "{\"kind\":\"audio\",".to_owned();
                push_chars(&mut o, &cs, x, y);
                o.append("}");
                o
            },
            Event::Exit => "{\"kind\":\"exit\",\"why\":\"module\"}".to_owned(),
            Event::Log(t) => {
                let mut o = "{\"kind\":\"log\",\"text\":".to_owned();
                let j = json_str(t.as_str());
                o.append(j.as_str());
                o.append("}");
                o
            },
        }
    }
}

// ---------------------------------------------------------------------------
// Input between frames

/// The most touch reports kept waiting for the next frames.
pub const TOUCH_QUEUE_MAX: usize = 64;

/// The event code of a frame without a key event.
pub const NO_EVENT: u32 = 0xFF;

/// The input state a session keeps between frames: the keys held now, the presses
/// seen since the last frame, the keys held at the last frame, and the touch reports.
pub struct InputState {
    pub keys: u32,
    pub latched: u32,
    pub prev_keys: u32,
    pub touch: Option<(i32, i32, Touch)>,
    pub touch_queue: Vec<(i32, i32, Touch)>,
}

/// What one frame of input looks like to the program.
#[derive(Clone, Copy, PartialEq, Eq, Debug, Structural)]
pub struct InputFrame {
    pub keys_down: u32,
    pub keys_hold: u32,
    pub keys_up: u32,
    /// The pointer position and touch flags, when a touch is reported this frame.
    pub touch: Option<TouchFrame>,
}

/// The touch flags of one frame (each 0 or 1).
#[derive(Clone, Copy, PartialEq, Eq, Debug, Structural)]
pub struct TouchFrame {
    pub x: i32,
    pub y: i32,
    pub down: u32,
    pub hold: u32,
    pub up: u32,
    pub drag: u32,
}

/// The touch queue after a report: a move replaces a move at the end of the queue;
/// otherwise the report is queued unless the queue is full.
pub open spec fn spec_queue_touch(q: Seq<(i32, i32, Touch)>, e: (i32, i32, Touch)) -> Seq<(i32, i32, Touch)> {
    if e.2 == Touch::Move && q.len() > 0 && q.last().2 == Touch::Move {
        q.update(q.len() - 1, e)
    } else if q.len() < TOUCH_QUEUE_MAX {
        q.push(e)
    } else {
        q
    }
}

/// The touch flags for a report in state `st`.
pub open spec fn touch_flags(x: i32, y: i32, st: Touch) -> TouchFrame {
    TouchFrame {
        x,
        y,
        down: if st == Touch::Down { 1 } else { 0 },
        hold: if st == Touch::Down || st == Touch::Move { 1 } else { 0 },
        up: if st == Touch::Up { 1 } else { 0 },
        drag: if st == Touch::Move { 1 } else { 0 },
    }
}

/// The touch carried to the next frame: a lifted touch ends, others continue as moves.
pub open spec fn touch_after(t: (i32, i32, Touch)) -> Option<(i32, i32, Touch)> {
    if t.2 == Touch::Up { None } else { Some((t.0, t.1, Touch::Move)) }
}

impl InputState {
    /// No keys, no touch.
    pub fn new() -> (s: InputState)
        ensures
            s.keys == 0 && s.latched == 0 && s.prev_keys == 0,
            s.touch == None::<(i32, i32, Touch)>,
            s.touch_queue@ == Seq::<(i32, i32, Touch)>::empty(),
    {
        InputState { keys: 0, latched: 0, prev_keys: 0, touch: None, touch_queue: Vec::new() }
    }

    /// The host reports the keys held now; keys newly pressed since the last report are
    /// remembered until the next frame, so that a short press is not lost.
    pub fn set_keys(&mut self, mask: u32)
        ensures
            (final(self).keys, final(self).latched) == spec_set_keys(old(self).keys, old(self).latched, mask),
            final(self).prev_keys == old(self).prev_keys,
            final(self).touch == old(self).touch,
            final(self).touch_queue@ == old(self).touch_queue@,
    {
        self.latched = self.latched | (mask & !self.keys);
        self.keys = mask;
    }

    /// The host reports a touch (see `spec_queue_touch`).
    pub fn set_touch(&mut self, x: i32, y: i32, state: Touch)
        ensures
            final(self).touch_queue@ == spec_queue_touch(old(self).touch_queue@, (x, y, state)),
            final(self).keys == old(self).keys,
            final(self).latched == old(self).latched,
            final(self).prev_keys == old(self).prev_keys,
            final(self).touch == old(self).touch,
    {
        let n = self.touch_queue.len();
        if state == Touch::Move && n > 0 && self.touch_queue[n - 1].2 == Touch::Move {
            self.touch_queue.set(n - 1, (x, y, state));
        } else if n < TOUCH_QUEUE_MAX {
            self.touch_queue.push((x, y, state));
        }
    }

    /// The keys that count as held this frame: those held now and those pressed since
    /// the last frame.
    pub fn held(&self) -> (r: u32)
        ensures
            r == self.keys | self.latched,
    {
        self.keys | self.latched
    }

    /// Advance to the next frame; `rep` holds the keys whose autorepeat fires now.
    /// Keys went down if held now but not at the last frame, up the other way round;
    /// the oldest queued touch, or else the carried one, is reported.
    pub fn apply(&mut self, rep: u32) -> (f: InputFrame)
        ensures
            ({
                let bits = old(self).keys | old(self).latched;
                let t = if old(self).touch_queue@.len() > 0 { Some(old(self).touch_queue@[0]) } else { old(self).touch };
                &&& (f.keys_down, f.keys_hold, f.keys_up) == spec_frame_keys(old(self).keys, old(self).latched, old(self).prev_keys, rep)
                &&& final(self).latched == 0
                &&& final(self).prev_keys == bits
                &&& final(self).keys == old(self).keys
                &&& final(self).touch_queue@ == (if old(self).touch_queue@.len() > 0 { old(self).touch_queue@.drop_first() } else { old(self).touch_queue@ })
                &&& f.touch == (match t { Some(e) => Some(touch_flags(e.0, e.1, e.2)), None => None })
                &&& final(self).touch == (match t { Some(e) => touch_after(e), None => None })
            }),
    {
        let bits = self.keys | self.latched;
        self.latched = 0;
        let down = bits & !self.prev_keys;
        let up = self.prev_keys & !bits;
        self.prev_keys = bits;
        if self.touch_queue.len() > 0 {
            let e = self.touch_queue.remove(0);
            self.touch = Some(e);
        }
        let touch = match self.touch {
            Some((x, y, st)) => {
                let tf = TouchFrame {
                    x,
                    y,
                    down: if st == Touch::Down { 1 } else { 0 },
                    hold: if st == Touch::Down || st == Touch::Move { 1 } else { 0 },
                    up: if st == Touch::Up { 1 } else { 0 },
                    drag: if st == Touch::Move { 1 } else { 0 },
                };
                self.touch = match st {
                    Touch::Up => None,
                    Touch::Down => Some((x, y, Touch::Move)),
                    Touch::Move => Some((x, y, Touch::Move)),
                };
                Some(tf)
            },
            None => None,
        };
        InputFrame { keys_down: down | rep, keys_hold: bits, keys_up: up, touch }
    }
}

/// The key event of a frame: a press wins over a release; the event's key mask is
/// stored at `kev`, whose address goes with the event. Returns the event code, its
/// datum, and the mask to store at `kev` (`None`: nothing to store).
pub fn key_event(keys_down: u32, keys_up: u32, kev: u32) -> (r: (u32, u32, Option<u32>))
    ensures
        r == (if keys_down != 0 {
            (0u32, kev, Some(keys_down))
        } else if keys_up != 0 {
            (1u32, kev, Some(keys_up))
        } else {
            (NO_EVENT, 0u32, None::<u32>)
        }),
{
    if keys_down != 0 {
        return (0, kev, Some(keys_down));
    }
    if keys_up != 0 {
        return (1, kev, Some(keys_up));
    }
    (NO_EVENT, 0, None)
}

/// The held keys and the remembered presses after the host reports `mask`.
pub open spec fn spec_set_keys(keys: u32, latched: u32, mask: u32) -> (u32, u32) {
    (mask, latched | (mask & !keys))
}

/// The keys down, held and up in a frame, from the keys held, the presses remembered,
/// the keys held at the last frame and the keys repeating now.
pub open spec fn spec_frame_keys(keys: u32, latched: u32, prev: u32, rep: u32) -> (u32, u32, u32) {
    let bits = keys | latched;
    ((bits & !prev) | rep, bits, prev & !bits)
}

/// A key pressed and released again between two frames still shows as down in the
/// next frame.
pub proof fn short_press_is_seen(keys: u32, latched: u32, prev: u32, mask: u32, k: u32)
    requires
        mask & k != 0,
        keys & k == 0,
        prev & k == 0,
    ensures
        ({
            let s1 = spec_set_keys(keys, latched, mask);
            let s2 = spec_set_keys(s1.0, s1.1, 0);
            spec_frame_keys(s2.0, s2.1, prev, 0).0 & k != 0
        }),
{
    let l1 = latched | (mask & !keys);
    let l2 = l1 | (0u32 & !mask);
    assert((((0u32 | l2) & !prev) | 0u32) & k != 0) by (bit_vector)
        requires
            mask & k != 0,
            keys & k == 0,
            prev & k == 0,
            l1 == latched | (mask & !keys),
            l2 == l1 | (0u32 & !mask),
    ;
}

/// Touch reports queue up between frames and are taken one a frame: a tap, pressed
/// and lifted before the next frame, shows as a press in that frame and as a lift
/// in the one after.
pub proof fn tap_is_seen_over_two_frames(x0: i32, y0: i32, x1: i32, y1: i32)
    ensures
        ({
            let q = spec_queue_touch(spec_queue_touch(Seq::empty(), (x0, y0, Touch::Down)), (x1, y1, Touch::Up));
            &&& q.len() == 2
            &&& touch_flags(q[0].0, q[0].1, q[0].2).down == 1
            &&& touch_flags(q.drop_first()[0].0, q.drop_first()[0].1, q.drop_first()[0].2).up == 1
        }),
{
}

// ---------------------------------------------------------------------------
// Key repeat and the soft keys' check

/// How long a key is held before it first repeats, in milliseconds.
pub const REPEAT_DELAY_MS: u64 = 400;
/// How long between repeats of a key kept held, in milliseconds.
pub const REPEAT_RATE_MS: u64 = 120;

/// Whether key `b` is among `bits`.
pub open spec fn key_held(bits: u32, b: u32) -> bool {
    bits & (1u32 << b) != 0
}

/// One key's repeat time after a frame at `now`, and whether it repeats in that
/// frame: a key not held has none; a key just held gets its first repeat time; a
/// key whose time has come repeats and gets the next one.
pub open spec fn repeat_slot(held: bool, slot: Option<u64>, now: u64) -> (Option<u64>, bool) {
    if !held {
        (None, false)
    } else {
        match slot {
            None => (Some((now + REPEAT_DELAY_MS) as u64), false),
            Some(t) => if now >= t { (Some((now + REPEAT_RATE_MS) as u64), true) } else { (Some(t), false) },
        }
    }
}

/// The keys among the first `n` that repeat in a frame at `now`.
pub open spec fn fired_mask(bits: u32, slots: Seq<Option<u64>>, now: u64, n: nat) -> u32
    decreases n,
{
    if n == 0 {
        0
    } else {
        let b = (n - 1) as u32;
        fired_mask(bits, slots, now, (n - 1) as nat)
            | (if repeat_slot(key_held(bits, b), slots[n - 1], now).1 { 1u32 << b } else { 0u32 })
    }
}

proof fn lemma_or_bit(m: u32, k: u32, b: u32)
    by (bit_vector)
    requires
        k < 32,
        b < 32,
    ensures
        ((m | (1u32 << k)) & (1u32 << b) != 0) == ((m & (1u32 << b) != 0) || b == k),
        (m | 0u32) == m,
        (0u32 & (1u32 << b)) == 0,
{
}

proof fn lemma_mask_bit(bits: u32, slots: Seq<Option<u64>>, now: u64, n: nat, b: u32)
    requires
        n <= 32,
        b < 32,
    ensures
        (fired_mask(bits, slots, now, n) & (1u32 << b) != 0)
            == (b < n && repeat_slot(key_held(bits, b), slots[b as int], now).1),
    decreases n,
{
    lemma_or_bit(0, 0, b);
    if n > 0 {
        let k = (n - 1) as u32;
        let m = fired_mask(bits, slots, now, (n - 1) as nat);
        lemma_mask_bit(bits, slots, now, (n - 1) as nat, b);
        lemma_or_bit(m, k, b);
    }
}

/// When each of the 32 keys next repeats.
pub struct Repeater {
    pub next: Vec<Option<u64>>,
}

impl Repeater {
    /// No key held.
    pub fn new() -> (r: Repeater)
        ensures
            r.next@ == Seq::new(32, |b: int| None::<u64>),
    {
        let mut next: Vec<Option<u64>> = Vec::new();
        let mut i: usize = 0;
        while i < 32
            invariant
                i <= 32,
                next@ == Seq::new(i as nat, |b: int| None::<u64>),
            decreases 32 - i,
        {
            next.push(None);
            i = i + 1;
        }
        Repeater { next }
    }

    /// A frame at `now` (milliseconds) with `bits` held: the keys that repeat in it;
    /// each key's repeat time moves on (see `repeat_slot`).
    pub fn autorepeat(&mut self, bits: u32, now: u64) -> (r: u32)
        requires
            old(self).next@.len() == 32,
            now <= u64::MAX - REPEAT_DELAY_MS,
        ensures
            r == fired_mask(bits, old(self).next@, now, 32),
            final(self).next@ == Seq::new(32, |b: int| repeat_slot(key_held(bits, b as u32), old(self).next@[b], now).0),
    {
        let ghost s0 = self.next@;
        let mut out: u32 = 0;
        let mut b: u32 = 0;
        while b < 32
            invariant
                b <= 32,
                s0.len() == 32,
                now <= u64::MAX - REPEAT_DELAY_MS,
                self.next@.len() == 32,
                out == fired_mask(bits, s0, now, b as nat),
                forall|j: int| 0 <= j < b ==> #[trigger] self.next@[j] == repeat_slot(key_held(bits, j as u32), s0[j], now).0,
                forall|j: int| b <= j < 32 ==> #[trigger] self.next@[j] == s0[j],
            decreases 32 - b,
        {
            let m = 1u32 << b;
            let i = b as usize;
            let ghost want = repeat_slot(key_held(bits, b), s0[b as int], now);
            if bits & m == 0 {
                self.next.set(i, None);
            } else {
                match self.next[i] {
                    None => {
                        self.next.set(i, Some(now + REPEAT_DELAY_MS));
                    },
                    Some(t) => {
                        if now >= t {
                            self.next.set(i, Some(now + REPEAT_RATE_MS));
                            out = out | m;
                        }
                    },
                }
            }
            proof {
                assert(self.next@[b as int] == want.0);
                assert(out == fired_mask(bits, s0, now, (b + 1) as nat)) by {
                    lemma_or_bit(fired_mask(bits, s0, now, b as nat), b, 0);
                }
            }
            b = b + 1;
        }
        assert(self.next@ =~= Seq::new(32, |j: int| repeat_slot(key_held(bits, j as u32), s0[j], now).0));
        out
    }
}

/// A key held repeats: held at a frame at `t0` when it was not held before, it
/// does not repeat then, and held still at a later frame at `t1`, at least the
/// repeat delay on, it repeats.
pub proof fn held_key_repeats(bits: u32, slots: Seq<Option<u64>>, b: u32, t0: u64, t1: u64)
    requires
        slots.len() == 32,
        b < 32,
        key_held(bits, b),
        slots[b as int] is None,
        t0 <= u64::MAX - REPEAT_DELAY_MS,
        t1 >= t0 + REPEAT_DELAY_MS,
    ensures
        ({
            let s1 = Seq::new(32, |j: int| repeat_slot(key_held(bits, j as u32), slots[j], t0).0);
            &&& fired_mask(bits, slots, t0, 32) & (1u32 << b) == 0
            &&& fired_mask(bits, s1, t1, 32) & (1u32 << b) != 0
        }),
{
    let s1 = Seq::new(32, |j: int| repeat_slot(key_held(bits, j as u32), slots[j], t0).0);
    lemma_mask_bit(bits, slots, t0, 32, b);
    lemma_mask_bit(bits, s1, t1, 32, b);
    assert(s1[b as int] == Some((t0 + REPEAT_DELAY_MS) as u64));
}

/// A key held over three frames: pressed before the first, it shows as down there
/// (the press edge); still held at a second frame within the repeat delay it is held
/// but not down; still held at a third frame at least the delay after the first, it
/// is down again (the repeat).
pub proof fn held_key_three_frames(keys: u32, prev: u32, slots: Seq<Option<u64>>, b: u32, t0: u64, t1: u64, t2: u64)
    requires
        slots.len() == 32,
        b < 32,
        key_held(keys, b),
        prev & (1u32 << b) == 0,
        slots[b as int] is None,
        t0 <= u64::MAX - REPEAT_DELAY_MS,
        t0 <= t1 < t0 + REPEAT_DELAY_MS,
        t2 >= t0 + REPEAT_DELAY_MS,
    ensures
        ({
            let m = 1u32 << b;
            let s1 = Seq::new(32, |j: int| repeat_slot(key_held(keys, j as u32), slots[j], t0).0);
            let f1 = spec_frame_keys(keys, 0, prev, fired_mask(keys, slots, t0, 32));
            let s2 = Seq::new(32, |j: int| repeat_slot(key_held(keys, j as u32), s1[j], t1).0);
            let f2 = spec_frame_keys(keys, 0, f1.1, fired_mask(keys, s1, t1, 32));
            let f3 = spec_frame_keys(keys, 0, f2.1, fired_mask(keys, s2, t2, 32));
            &&& f1.0 & m != 0
            &&& f2.1 & m != 0 && f2.0 & m == 0
            &&& f3.0 & m != 0
        }),
{
    let m = 1u32 << b;
    let s1 = Seq::new(32, |j: int| repeat_slot(key_held(keys, j as u32), slots[j], t0).0);
    let s2 = Seq::new(32, |j: int| repeat_slot(key_held(keys, j as u32), s1[j], t1).0);
    let r1 = fired_mask(keys, slots, t0, 32);
    let r2 = fired_mask(keys, s1, t1, 32);
    let r3 = fired_mask(keys, s2, t2, 32);
    lemma_mask_bit(keys, slots, t0, 32, b);
    lemma_mask_bit(keys, s1, t1, 32, b);
    lemma_mask_bit(keys, s2, t2, 32, b);
    assert(s1[b as int] == Some((t0 + REPEAT_DELAY_MS) as u64));
    assert(s2[b as int] == Some((t0 + REPEAT_DELAY_MS) as u64));
    assert(r2 & m == 0);
    assert(r3 & m != 0);
    assert(keys & m != 0);
    assert((((keys | 0u32) & !prev) | r1) & m != 0) by (bit_vector)
        requires
            keys & m != 0,
            prev & m == 0,
    ;
    let h = keys | 0u32;
    assert(h & m != 0 && (((keys | 0u32) & !h) | r2) & m == 0) by (bit_vector)
        requires
            keys & m != 0,
            r2 & m == 0,
            h == keys | 0u32,
    ;
    assert((((keys | 0u32) & !h) | r3) & m != 0) by (bit_vector)
        requires
            r3 & m != 0,
    ;
}

/// The samples, every 16th byte of `cur`, that differ from the same byte of
/// `before` (or that `before` is too short to hold), among the first `k`.
pub open spec fn changed_count(before: Seq<u8>, cur: Seq<u8>, k: int) -> int
    decreases k,
{
    if k <= 0 {
        0
    } else {
        let i = 16 * (k - 1);
        changed_count(before, cur, k - 1) + (if i >= before.len() || before[i] != cur[i] { 1int } else { 0int })
    }
}

/// How many samples of the screen changed between two copies (see
/// `changed_count`): every 16th byte of `cur` is compared.
pub fn changed_samples(before: &[u8], cur: &[u8]) -> (r: usize)
    ensures
        r as int == changed_count(before@, cur@, (cur@.len() as int + 15) / 16),
{
    let n = cur.len();
    let nk: usize = n / 16 + if n % 16 != 0 { 1 } else { 0 };
    assert(nk as int == (n as int + 15) / 16);
    let mut k: usize = 0;
    let mut count: usize = 0;
    while k < nk
        invariant
            n == cur@.len(),
            nk as int == (n as int + 15) / 16,
            k <= nk,
            count as int == changed_count(before@, cur@, k as int),
            count <= k,
        decreases nk - k,
    {
        assert(16 * (k as int) < n) by (nonlinear_arith)
            requires
                k < nk,
                nk as int == (n as int + 15) / 16,
        ;
        let i = 16 * k;
        if i >= before.len() || before[i] != cur[i] {
            count = count + 1;
        }
        k = k + 1;
    }
    count
}

} // verus!
