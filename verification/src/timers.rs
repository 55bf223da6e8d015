//! The programs' timers: started with a delay and a callback, stopped by id, and
//! fired once the clock reaches them.
use vstd::prelude::*;

verus! {

/// A timer: its id, when it is due (in ticks), and the callback with its parameter.
#[derive(Clone, Copy, Debug, PartialEq, Eq, Structural)]
pub struct Timer {
    pub id: u32,
    pub due: u64,
    pub cb: u32,
    pub param: u32,
}

/// The timers due at `now`, in the order they were started.
pub open spec fn due_at(ts: Seq<Timer>, now: u64) -> Seq<Timer>
    decreases ts.len(),
{
    if ts.len() == 0 {
        Seq::empty()
    } else {
        let r = due_at(ts.drop_last(), now);
        if ts.last().due <= now { r.push(ts.last()) } else { r }
    }
}

/// The timers not yet due at `now`, in the order they were started.
pub open spec fn pending_at(ts: Seq<Timer>, now: u64) -> Seq<Timer>
    decreases ts.len(),
{
    if ts.len() == 0 {
        Seq::empty()
    } else {
        let r = pending_at(ts.drop_last(), now);
        if ts.last().due <= now { r } else { r.push(ts.last()) }
    }
}

/// The timers other than those with id `id`, in order.
pub open spec fn without_id(ts: Seq<Timer>, id: u32) -> Seq<Timer>
    decreases ts.len(),
{
    if ts.len() == 0 {
        Seq::empty()
    } else {
        let r = without_id(ts.drop_last(), id);
        if ts.last().id == id { r } else { r.push(ts.last()) }
    }
}

/// The running timers and the id the next one gets.
pub struct Timers {
    pub next: u32,
    pub timers: Vec<Timer>,
}

impl Timers {
    /// No timers; the first gets id 1.
    pub fn new() -> (t: Timers)
        ensures
            t.next == 1,
            t.timers@.len() == 0,
    {
        Timers { next: 1, timers: Vec::new() }
    }

    /// Start a timer due `ms` ticks after `now` calling `cb` with `param`: its id, or
    /// 0 (and nothing started) for a null callback.
    pub fn start_timer(&mut self, now: u64, ms: u64, cb: u32, param: u32) -> (id: u32)
        requires
            cb != 0 ==> old(self).next < u32::MAX && now + ms <= u64::MAX,
        ensures
            cb == 0 ==> id == 0 && final(self).next == old(self).next && final(self).timers@ == old(self).timers@,
            cb != 0 ==> id == old(self).next && final(self).next == old(self).next + 1
                && final(self).timers@ == old(self).timers@.push(Timer { id, due: (now + ms) as u64, cb, param }),
    {
        if cb == 0 {
            return 0;
        }
        let id = self.next;
        self.next = self.next + 1;
        self.timers.push(Timer { id, due: now + ms, cb, param });
        id
    }

    /// Stop every timer with id `id`.
    pub fn stop_timer(&mut self, id: u32)
        ensures
            final(self).next == old(self).next,
            final(self).timers@ == without_id(old(self).timers@, id),
    {
        let ghost t0 = self.timers@;
        let mut keep: Vec<Timer> = Vec::new();
        let mut i: usize = 0;
        while i < self.timers.len()
            invariant
                i <= self.timers@.len(),
                self.timers@ == t0,
                keep@ == without_id(t0.take(i as int), id),
            decreases self.timers@.len() - i,
        {
            let t = self.timers[i];
            assert(t0.take(i + 1).drop_last() =~= t0.take(i as int));
            if t.id != id {
                keep.push(t);
            }
            i = i + 1;
        }
        assert(t0.take(t0.len() as int) =~= t0);
        self.timers = keep;
    }

    /// Take out the timers due at `now`, in the order they were started; those not due
    /// stay, in order.
    pub fn take_due(&mut self, now: u64) -> (fired: Vec<Timer>)
        ensures
            final(self).next == old(self).next,
            fired@ == due_at(old(self).timers@, now),
            final(self).timers@ == pending_at(old(self).timers@, now),
    {
        let ghost t0 = self.timers@;
        let mut fire: Vec<Timer> = Vec::new();
        let mut keep: Vec<Timer> = Vec::new();
        let mut i: usize = 0;
        while i < self.timers.len()
            invariant
                i <= self.timers@.len(),
                self.timers@ == t0,
                fire@ == due_at(t0.take(i as int), now),
                keep@ == pending_at(t0.take(i as int), now),
            decreases self.timers@.len() - i,
        {
            let t = self.timers[i];
            assert(t0.take(i + 1).drop_last() =~= t0.take(i as int));
            if t.due <= now {
                fire.push(t);
            } else {
                keep.push(t);
            }
            i = i + 1;
        }
        assert(t0.take(t0.len() as int) =~= t0);
        self.timers = keep;
        fire
    }
}

/// What fires is due and what stays is not, and together they are the timers there
/// were: each timer either fires or stays.
pub proof fn timers_fire_when_due(ts: Seq<Timer>, now: u64)
    ensures
        forall|i: int| 0 <= i < due_at(ts, now).len() ==> #[trigger] due_at(ts, now)[i].due <= now,
        forall|i: int| 0 <= i < pending_at(ts, now).len() ==> #[trigger] pending_at(ts, now)[i].due > now,
        due_at(ts, now).len() + pending_at(ts, now).len() == ts.len(),
        forall|t: Timer|
            #![trigger ts.contains(t)]
            #![trigger due_at(ts, now).contains(t)]
            #![trigger pending_at(ts, now).contains(t)]
            ts.contains(t) <==> (due_at(ts, now).contains(t) || pending_at(ts, now).contains(t)),
    decreases ts.len(),
{
    if ts.len() > 0 {
        timers_fire_when_due(ts.drop_last(), now);
        let d = due_at(ts.drop_last(), now);
        let p = pending_at(ts.drop_last(), now);
        assert forall|t: Timer|
            #![trigger ts.contains(t)]
            #![trigger due_at(ts, now).contains(t)]
            #![trigger pending_at(ts, now).contains(t)]
            ts.contains(t) <==> (due_at(ts, now).contains(t) || pending_at(ts, now).contains(t)) by {
            if ts.contains(t) {
                let k = choose|k: int| 0 <= k < ts.len() && ts[k] == t;
                if k < ts.len() - 1 {
                    assert(ts.drop_last()[k] == t);
                    assert(ts.drop_last().contains(t));
                    if d.contains(t) {
                        let j = choose|j: int| 0 <= j < d.len() && d[j] == t;
                        if ts.last().due <= now {
                            assert(d.push(ts.last())[j] == t);
                        }
                    } else {
                        assert(p.contains(t));
                        let j = choose|j: int| 0 <= j < p.len() && p[j] == t;
                        if ts.last().due > now {
                            assert(p.push(ts.last())[j] == t);
                        }
                    }
                } else {
                    if ts.last().due <= now {
                        assert(d.push(ts.last())[d.len() as int] == t);
                    } else {
                        assert(p.push(ts.last())[p.len() as int] == t);
                    }
                }
            }
            if due_at(ts, now).contains(t) {
                let j = choose|j: int| 0 <= j < due_at(ts, now).len() && due_at(ts, now)[j] == t;
                if ts.last().due <= now && j == d.len() {
                    assert(ts[ts.len() - 1] == t);
                } else {
                    assert(d[j] == t);
                    assert(d.contains(t));
                    assert(ts.drop_last().contains(t));
                    let k = choose|k: int| 0 <= k < ts.drop_last().len() && ts.drop_last()[k] == t;
                    assert(ts[k] == t);
                }
            }
            if pending_at(ts, now).contains(t) {
                let j = choose|j: int| 0 <= j < pending_at(ts, now).len() && pending_at(ts, now)[j] == t;
                if ts.last().due > now && j == p.len() {
                    assert(ts[ts.len() - 1] == t);
                } else {
                    assert(p[j] == t);
                    assert(p.contains(t));
                    assert(due_at(ts.drop_last(), now).contains(t) || pending_at(ts.drop_last(), now).contains(t));
                    assert(ts.drop_last().contains(t));
                    let k = choose|k: int| 0 <= k < ts.drop_last().len() && ts.drop_last()[k] == t;
                    assert(ts[k] == t);
                }
            }
        }
    }
}

proof fn lemma_without_id(ts: Seq<Timer>, id: u32)
    ensures
        forall|i: int| 0 <= i < without_id(ts, id).len() ==> #[trigger] without_id(ts, id)[i].id != id,
    decreases ts.len(),
{
    if ts.len() > 0 {
        lemma_without_id(ts.drop_last(), id);
        let r = without_id(ts.drop_last(), id);
        if ts.last().id != id {
            assert forall|i: int| 0 <= i < r.push(ts.last()).len() implies #[trigger] r.push(ts.last())[i].id != id by {
                if i < r.len() {
                    assert(r.push(ts.last())[i] == r[i]);
                }
            }
        }
    }
}

proof fn lemma_due_keeps_ids(ts: Seq<Timer>, id: u32, now: u64)
    requires
        forall|i: int| 0 <= i < ts.len() ==> #[trigger] ts[i].id != id,
    ensures
        forall|i: int| 0 <= i < due_at(ts, now).len() ==> #[trigger] due_at(ts, now)[i].id != id,
    decreases ts.len(),
{
    if ts.len() > 0 {
        assert forall|i: int| 0 <= i < ts.drop_last().len() implies #[trigger] ts.drop_last()[i].id != id by {
            assert(ts.drop_last()[i] == ts[i]);
        }
        assert(ts.last().id != id);
        lemma_due_keeps_ids(ts.drop_last(), id, now);
        let r = due_at(ts.drop_last(), now);
        if ts.last().due <= now {
            assert forall|i: int| 0 <= i < r.push(ts.last()).len() implies #[trigger] r.push(ts.last())[i].id != id by {
                if i < r.len() {
                    assert(r.push(ts.last())[i] == r[i]);
                }
            }
        }
    }
}

/// A stopped timer never fires.
pub proof fn stopped_timer_never_fires(ts: Seq<Timer>, id: u32, now: u64)
    ensures
        forall|i: int| 0 <= i < due_at(without_id(ts, id), now).len() ==> #[trigger] due_at(without_id(ts, id), now)[i].id != id,
{
    lemma_without_id(ts, id);
    lemma_due_keeps_ids(without_id(ts, id), id, now);
}

// ---------------------------------------------------------------------------
// Programs that wait by polling the clock

/// The last system call made and how many times in a row it was made again since.
pub struct TrapStreak {
    pub last: i64,
    pub same: u32,
}

/// The streak after a call `idx`: one more of the same, or a new streak.
pub open spec fn spec_hit(last: int, same: int, idx: int) -> (int, int) {
    if last == idx { (last, same + 1) } else { (idx, 0) }
}

/// The streak after `k` calls of `idx` in a row.
pub open spec fn hits(last: int, same: int, idx: int, k: nat) -> (int, int)
    decreases k,
{
    if k == 0 {
        (last, same)
    } else {
        let p = hits(last, same, idx, (k - 1) as nat);
        spec_hit(p.0, p.1, idx)
    }
}

/// The clock read by a program after a poll made `same` times in a row again: a
/// program polling over and over sees it move on, by one tick after 8 repeats and
/// by 16 after 64.
pub open spec fn spec_poll_tick(tick: int, same: int) -> int {
    if same > 64 { tick + 16 } else if same > 8 { tick + 1 } else { tick }
}

impl TrapStreak {
    /// No call made yet.
    pub fn new() -> (t: TrapStreak)
        ensures
            t.last == -1 && t.same == 0,
    {
        TrapStreak { last: -1, same: 0 }
    }

    /// A call `idx` is made (see `spec_hit`).
    pub fn hit(&mut self, idx: u32)
        requires
            old(self).same < u32::MAX,
        ensures
            (final(self).last as int, final(self).same as int) == spec_hit(old(self).last as int, old(self).same as int, idx as int),
    {
        if self.last == idx as i64 {
            self.same = self.same + 1;
        } else {
            self.last = idx as i64;
            self.same = 0;
        }
    }
}

/// The clock a poll reads (see `spec_poll_tick`).
pub fn poll_tick(tick: u64, same: u32) -> (r: u64)
    requires
        tick <= u64::MAX - 16,
    ensures
        r as int == spec_poll_tick(tick as int, same as int),
{
    if same > 64 {
        tick + 16
    } else if same > 8 {
        tick + 1
    } else {
        tick
    }
}

proof fn lemma_hits(last: int, same: int, idx: int, k: nat)
    requires
        k >= 1,
        same >= 0,
    ensures
        hits(last, same, idx, k).0 == idx,
        hits(last, same, idx, k).1 >= k - 1,
    decreases k,
{
    if k > 1 {
        lemma_hits(last, same, idx, (k - 1) as nat);
    } else {
        assert(hits(last, same, idx, 0) == (last, same));
    }
}

/// A program that waits by polling the clock is not stuck: from the tenth poll in a
/// row on, each poll finds the clock moved on.
pub proof fn busy_poll_advances(last: int, same: int, idx: int, k: nat, tick: int)
    requires
        same >= 0,
        k >= 10,
    ensures
        spec_poll_tick(tick, hits(last, same, idx, k).1) > tick,
{
    lemma_hits(last, same, idx, k);
}

// ---------------------------------------------------------------------------
// The per-frame clock

/// What a frame runs: the old-style module's callback alone, or the clock, timers
/// and screens.
#[derive(Clone, Copy, Debug, PartialEq, Eq, Structural)]
pub enum FramePlan {
    OldCallback,
    Screens,
}

/// The virtual clock, in milliseconds, and the frame counts.
pub struct FrameClock {
    pub tick: u64,
    pub frames: u64,
    pub gfx_frames: u64,
}

impl FrameClock {
    /// A frame: an old-style module with no live screen only runs its callback, and
    /// the clock stands still; otherwise the clock moves on by `frame_ms` and the
    /// screens are drawn. Either way the frame is counted.
    pub fn frame_step(&mut self, old_style: bool, live_screens: usize, frame_ms: u64) -> (r: FramePlan)
        requires
            old(self).tick + frame_ms <= u64::MAX,
            old(self).frames < u64::MAX,
            old(self).gfx_frames < u64::MAX,
        ensures
            final(self).frames == old(self).frames + 1,
            (old_style && live_screens == 0) ==> r == FramePlan::OldCallback && final(self).tick == old(self).tick
                && final(self).gfx_frames == old(self).gfx_frames,
            !(old_style && live_screens == 0) ==> r == FramePlan::Screens && final(self).tick == old(self).tick + frame_ms
                && final(self).gfx_frames == old(self).gfx_frames + 1,
    {
        if old_style && live_screens == 0 {
            self.frames = self.frames + 1;
            return FramePlan::OldCallback;
        }
        self.tick = self.tick + frame_ms;
        self.frames = self.frames + 1;
        self.gfx_frames = self.gfx_frames + 1;
        FramePlan::Screens
    }
}

} // verus!
