//! Animated actors of the old game library: stepping through an action's steps,
//! switching actions, the parts a step draws, and collisions between parts.
use vstd::prelude::*;
use crate::api::oldlib::{ActorData, ActorFrame, spec_s16, s16};

verus! {

/// Where an actor stands and how far its animation has got (16-bit values each).
#[derive(Clone, Copy, Debug, PartialEq, Eq, Structural)]
pub struct ActorState {
    pub x: i32,
    pub y: i32,
    /// The current action.
    pub action: i32,
    /// The step within the action.
    pub frame: i32,
    /// Ticks spent in the step.
    pub tick: i32,
}

/// The number of steps of action `a`; 0 for an action the description lacks.
pub open spec fn act_steps(d: ActorData, a: int) -> i32 {
    if 0 <= a < d.acts@.len() { d.acts@[a].nf } else { 0 }
}

/// The duration of step `k` of action `a`; 0 for a step the description lacks.
pub open spec fn step_dur(d: ActorData, a: int, k: int) -> i32 {
    if 0 <= a < d.acts@.len() && 0 <= k < d.acts@[a].steps@.len() { d.acts@[a].steps@[k].dur } else { 0 }
}

/// The parts shown by step `k` of action `a`; none for a step the description lacks.
pub open spec fn step_parts(d: ActorData, a: int, k: int) -> Seq<(i32, i32, i32, i32, i32)> {
    if 0 <= a < d.acts@.len() && 0 <= k < d.acts@[a].steps@.len() { d.acts@[a].steps@[k].parts@ } else { Seq::empty() }
}

/// Frame rectangle `k`; all zero for one the description lacks.
pub open spec fn frame_or_zero(d: ActorData, k: int) -> ActorFrame {
    if 0 <= k < d.frames@.len() { d.frames@[k] } else { ActorFrame { x: 0, y: 0, w: 0, h: 0, img: 0 } }
}

/// How long the actor stays in its step: the duration of the following step, or of
/// the step itself when it is the action's last.
pub open spec fn spec_duration(d: ActorData, s: ActorState) -> i32 {
    if act_steps(d, s.action as int) - 1 <= s.frame {
        step_dur(d, s.action as int, s.frame as int)
    } else {
        step_dur(d, s.action as int, s.frame + 1)
    }
}

/// One tick of animation: the tick count goes up; once it reaches the step's
/// duration the actor moves to the next step, and past the last step back to the
/// first (tick count 0). Gives the new state and the step moved to (0 after
/// wrapping; the duration when the step is kept).
pub open spec fn spec_next(d: ActorData, s: ActorState) -> (ActorState, i32) {
    let t = spec_s16(s.tick + 1) as i32;
    let r = spec_duration(d, s);
    if r <= t {
        let f = spec_s16(s.frame + 1) as i32;
        if act_steps(d, s.action as int) <= f {
            (ActorState { frame: 0, tick: 0, ..s }, 0)
        } else {
            (ActorState { frame: f, tick: t, ..s }, f)
        }
    } else {
        (ActorState { tick: t, ..s }, r)
    }
}

/// Switch to action `act` when it is another one and the actor has it: step and
/// tick count start over.
pub open spec fn spec_set_action(d: ActorData, s: ActorState, act: i32) -> ActorState {
    if s.action != act && spec_s16(d.n_acts as int) > act {
        ActorState { action: spec_s16(act as int) as i32, frame: 0, tick: 0, ..s }
    } else {
        s
    }
}

/// The duration of the last step of the current action.
pub open spec fn spec_last(d: ActorData, s: ActorState) -> i32 {
    step_dur(d, s.action as int, act_steps(d, s.action as int) - 1)
}

/// Whether every value of the state is a 16-bit value.
pub open spec fn state_ok(s: ActorState) -> bool {
    -0x8000 <= s.x <= 0x7FFF && -0x8000 <= s.y <= 0x7FFF && -0x8000 <= s.action <= 0x7FFF
        && -0x8000 <= s.frame <= 0x7FFF && -0x8000 <= s.tick <= 0x7FFF
}

/// Whether every value of the description is a 16-bit value (as the loader reads it).
pub open spec fn data_ok(d: ActorData) -> bool {
    &&& -0x8000 <= d.n_acts <= 0x7FFF
    &&& forall|k: int| 0 <= k < d.frames@.len() ==> {
        let f = #[trigger] d.frames@[k];
        -0x8000 <= f.x <= 0x7FFF && -0x8000 <= f.y <= 0x7FFF && -0x8000 <= f.img <= 0x7FFF
            && -0x1_0000 <= f.w <= 0x1_0000 && -0x1_0000 <= f.h <= 0x1_0000
    }
    &&& forall|a: int| 0 <= a < d.acts@.len() ==> {
        let act = #[trigger] d.acts@[a];
        &&& -0x8000 <= act.nf <= 0x7FFF
        &&& forall|k: int| 0 <= k < act.steps@.len() ==> {
            let st = #[trigger] act.steps@[k];
            &&& -0x8000 <= st.dur <= 0x7FFF
            &&& forall|j: int| 0 <= j < st.parts@.len() ==> part_ok(#[trigger] st.parts@[j])
        }
    }
}

/// Whether every value of a part is a 16-bit value.
pub open spec fn part_ok(p: (i32, i32, i32, i32, i32)) -> bool {
    -0x8000 <= p.0 <= 0x7FFF && -0x8000 <= p.1 <= 0x7FFF && -0x8000 <= p.2 <= 0x7FFF && -0x8000 <= p.3 <= 0x7FFF
        && -0x8000 <= p.4 <= 0x7FFF
}

fn act_steps_of(d: &ActorData, a: i32) -> (r: i32)
    ensures
        r == act_steps(*d, a as int),
{
    if 0 <= a && (a as usize) < d.acts.len() { d.acts[a as usize].nf } else { 0 }
}

fn step_dur_of(d: &ActorData, a: i32, k: i32) -> (r: i32)
    ensures
        r == step_dur(*d, a as int, k as int),
{
    if 0 <= a && (a as usize) < d.acts.len() && 0 <= k && (k as usize) < d.acts[a as usize].steps.len() {
        d.acts[a as usize].steps[k as usize].dur
    } else {
        0
    }
}

/// How long the actor stays in its step (see `spec_duration`).
pub fn actor_duration(d: &ActorData, s: ActorState) -> (r: i32)
    requires
        state_ok(s),
        data_ok(*d),
    ensures
        r == spec_duration(*d, s),
{
    let nf = act_steps_of(d, s.action);
    proof {
        if 0 <= s.action < d.acts@.len() {
            assert(-0x8000 <= d.acts@[s.action as int].nf <= 0x7FFF);
        }
    }
    if nf - 1 <= s.frame {
        step_dur_of(d, s.action, s.frame)
    } else {
        step_dur_of(d, s.action, s.frame + 1)
    }
}

/// One tick of animation (see `spec_next`).
pub fn actor_next(d: &ActorData, s: ActorState) -> (r: (ActorState, i32))
    requires
        state_ok(s),
        data_ok(*d),
    ensures
        r == spec_next(*d, s),
        state_ok(r.0),
{
    let t = s16(s.tick + 1);
    let r = actor_duration(d, s);
    if r <= t {
        let f = s16(s.frame + 1);
        if act_steps_of(d, s.action) <= f {
            (ActorState { frame: 0, tick: 0, ..s }, 0)
        } else {
            (ActorState { frame: f, tick: t, ..s }, f)
        }
    } else {
        (ActorState { tick: t, ..s }, r)
    }
}

/// Switch action (see `spec_set_action`); `act` is the program's 32-bit argument.
pub fn actor_set_action(d: &ActorData, s: ActorState, act: i32) -> (r: ActorState)
    requires
        state_ok(s),
        data_ok(*d),
    ensures
        r == spec_set_action(*d, s, act),
        state_ok(r),
{
    if s.action != act && s16(d.n_acts) > act {
        ActorState { action: s16(act), frame: 0, tick: 0, ..s }
    } else {
        s
    }
}

/// The duration of the last step of the current action (see `spec_last`).
pub fn actor_last(d: &ActorData, s: ActorState) -> (r: i32)
    requires
        state_ok(s),
        data_ok(*d),
    ensures
        r == spec_last(*d, s),
{
    let nf = act_steps_of(d, s.action);
    proof {
        if 0 <= s.action < d.acts@.len() {
            assert(-0x8000 <= d.acts@[s.action as int].nf <= 0x7FFF);
        }
    }
    step_dur_of(d, s.action, nf - 1)
}

// ---------------------------------------------------------------------------
// Drawing and collisions

/// One part of a step as drawn: the image, where it goes on the screen, the source
/// rectangle within the image, and the drawing flags.
#[derive(Clone, Copy, Debug, PartialEq, Eq, Structural)]
pub struct PartDraw {
    pub img: i32,
    pub x: i32,
    pub y: i32,
    pub sx: i32,
    pub sy: i32,
    pub w: i32,
    pub h: i32,
    pub flags: i32,
}

/// The image of entry `k` of the image table; 0 past its end.
pub open spec fn image_at(imgs: Seq<i32>, k: int) -> i32 {
    if 0 <= k < imgs.len() { imgs[k] } else { 0 }
}

/// How part `p` of an actor at (`ax`, `ay`) is drawn with the view at (`ox`, `oy`):
/// its frame rectangle gives the source and the image; the part's offset places it.
pub open spec fn part_draw(d: ActorData, imgs: Seq<i32>, ax: i32, ay: i32, ox: i32, oy: i32, p: (i32, i32, i32, i32, i32)) -> PartDraw {
    let f = frame_or_zero(d, p.0 as int);
    PartDraw {
        img: image_at(imgs, f.img as int),
        x: spec_s16(p.1 + ax - ox) as i32,
        y: spec_s16(p.2 + ay - oy) as i32,
        sx: f.x,
        sy: f.y,
        w: spec_s16(f.w as int) as i32,
        h: spec_s16(f.h as int) as i32,
        flags: (p.3 % 256) as i32,
    }
}

/// The parts the current step draws, in order (`imgs` is the image table the
/// actor's images were loaded into).
pub open spec fn spec_draw_parts(d: ActorData, imgs: Seq<i32>, s: ActorState, ox: i32, oy: i32) -> Seq<PartDraw> {
    step_parts(d, s.action as int, s.frame as int).map_values(|p: (i32, i32, i32, i32, i32)| part_draw(d, imgs, s.x, s.y, ox, oy, p))
}

fn frame_of_index(d: &ActorData, k: i32) -> (r: ActorFrame)
    ensures
        r == frame_or_zero(*d, k as int),
{
    if 0 <= k && (k as usize) < d.frames.len() {
        let f = &d.frames[k as usize];
        ActorFrame { x: f.x, y: f.y, w: f.w, h: f.h, img: f.img }
    } else {
        ActorFrame { x: 0, y: 0, w: 0, h: 0, img: 0 }
    }
}

/// The parts the current step draws (see `spec_draw_parts`); `ox`, `oy` are 16-bit.
pub fn actor_draw_parts(d: &ActorData, imgs: &Vec<i32>, s: ActorState, ox: i32, oy: i32) -> (r: Vec<PartDraw>)
    requires
        state_ok(s),
        data_ok(*d),
        -0x8000 <= ox <= 0x7FFF && -0x8000 <= oy <= 0x7FFF,
    ensures
        r@ == spec_draw_parts(*d, imgs@, s, ox, oy),
{
    let ghost ps = step_parts(*d, s.action as int, s.frame as int);
    let empty: Vec<(i32, i32, i32, i32, i32)> = Vec::new();
    let parts: &Vec<(i32, i32, i32, i32, i32)> = if 0 <= s.action && (s.action as usize) < d.acts.len() && 0 <= s.frame
        && (s.frame as usize) < d.acts[s.action as usize].steps.len() {
        &d.acts[s.action as usize].steps[s.frame as usize].parts
    } else {
        &empty
    };
    assert(parts@ == ps);
    let mut out: Vec<PartDraw> = Vec::new();
    let mut i: usize = 0;
    while i < parts.len()
        invariant
            i <= parts@.len(),
            parts@ == ps,
            ps == step_parts(*d, s.action as int, s.frame as int),
            state_ok(s),
            data_ok(*d),
            -0x8000 <= ox <= 0x7FFF && -0x8000 <= oy <= 0x7FFF,
            out@ == ps.take(i as int).map_values(|p: (i32, i32, i32, i32, i32)| part_draw(*d, imgs@, s.x, s.y, ox, oy, p)),
        decreases parts@.len() - i,
    {
        let p = parts[i];
        proof {
            assert(part_ok(d.acts@[s.action as int].steps@[s.frame as int].parts@[i as int]));
        }
        let f = frame_of_index(d, p.0);
        proof {
            if 0 <= p.0 < d.frames@.len() {
                assert(-0x1_0000 <= d.frames@[p.0 as int].w <= 0x1_0000);
            }
        }
        let img = if 0 <= f.img && (f.img as usize) < imgs.len() { imgs[f.img as usize] } else { 0 };
        let pd = PartDraw {
            img,
            x: s16(p.1 + s.x - ox),
            y: s16(p.2 + s.y - oy),
            sx: f.x,
            sy: f.y,
            w: s16(f.w),
            h: s16(f.h),
            flags: if p.3 >= 0 { p.3 % 256 } else { (p.3 % 256 + 256) % 256 },
        };
        assert(pd == part_draw(*d, imgs@, s.x, s.y, ox, oy, p));
        out.push(pd);
        assert(ps.take(i + 1) =~= ps.take(i as int).push(p));
        assert(out@ =~= ps.take(i + 1).map_values(|p: (i32, i32, i32, i32, i32)| part_draw(*d, imgs@, s.x, s.y, ox, oy, p)));
        i = i + 1;
    }
    assert(ps.take(ps.len() as int) =~= ps);
    out
}

/// The screen rectangle (x, y, w, h) of part `p` of an actor at (`ax`, `ay`).
pub open spec fn part_rect(d: ActorData, ax: i32, ay: i32, p: (i32, i32, i32, i32, i32)) -> (int, int, int, int) {
    let f = frame_or_zero(d, p.0 as int);
    (p.1 + ax, p.2 + ay, spec_s16(f.w as int), spec_s16(f.h as int))
}

/// Whether two rectangles share a pixel.
pub open spec fn rects_meet(a: (int, int, int, int), b: (int, int, int, int)) -> bool {
    a.0 + a.2 - 1 >= b.0 && b.0 + b.2 - 1 >= a.0 && a.1 + a.3 - 1 >= b.1 && b.1 + b.3 - 1 >= a.1
}

/// Whether actor `a`'s parts of type `ta` and actor `b`'s parts of type `tb` in their
/// current steps overlap anywhere.
pub open spec fn spec_collide(da: ActorData, sa: ActorState, db: ActorData, sb: ActorState, ta: i32, tb: i32) -> bool {
    let pa = step_parts(da, sa.action as int, sa.frame as int);
    let pb = step_parts(db, sb.action as int, sb.frame as int);
    exists|i: int, j: int|
        0 <= i < pa.len() && 0 <= j < pb.len() && #[trigger] pa[i].4 == ta && #[trigger] pb[j].4 == tb
            && rects_meet(part_rect(da, sa.x, sa.y, pa[i]), part_rect(db, sb.x, sb.y, pb[j]))
}

fn parts_of(d: &ActorData, s: ActorState) -> (r: Vec<(i32, i32, i32, i32, i32)>)
    ensures
        r@ == step_parts(*d, s.action as int, s.frame as int),
{
    if 0 <= s.action && (s.action as usize) < d.acts.len() && 0 <= s.frame
        && (s.frame as usize) < d.acts[s.action as usize].steps.len() {
        let v = &d.acts[s.action as usize].steps[s.frame as usize].parts;
        let mut r: Vec<(i32, i32, i32, i32, i32)> = Vec::new();
        let mut i: usize = 0;
        while i < v.len()
            invariant
                i <= v@.len(),
                r@ == v@.take(i as int),
            decreases v@.len() - i,
        {
            r.push(v[i]);
            assert(r@ =~= v@.take(i + 1));
            i = i + 1;
        }
        assert(v@.take(v@.len() as int) =~= v@);
        r
    } else {
        Vec::new()
    }
}

fn rect_of(d: &ActorData, ax: i32, ay: i32, p: (i32, i32, i32, i32, i32)) -> (r: (i64, i64, i64, i64))
    requires
        part_ok(p),
        data_ok(*d),
        -0x8000 <= ax <= 0x7FFF && -0x8000 <= ay <= 0x7FFF,
    ensures
        (r.0 as int, r.1 as int, r.2 as int, r.3 as int) == part_rect(*d, ax, ay, p),
        -0x1_0000 <= r.0 <= 0x1_0000 && -0x1_0000 <= r.1 <= 0x1_0000,
        -0x8000 <= r.2 <= 0x7FFF && -0x8000 <= r.3 <= 0x7FFF,
{
    let f = frame_of_index(d, p.0);
    proof {
        if 0 <= p.0 < d.frames@.len() {
            assert(-0x1_0000 <= d.frames@[p.0 as int].w <= 0x1_0000);
        }
    }
    (p.1 as i64 + ax as i64, p.2 as i64 + ay as i64, s16(f.w) as i64, s16(f.h) as i64)
}

/// Whether two actors collide (see `spec_collide`).
pub fn actor_collide(da: &ActorData, sa: ActorState, db: &ActorData, sb: ActorState, ta: i32, tb: i32) -> (r: bool)
    requires
        state_ok(sa),
        state_ok(sb),
        data_ok(*da),
        data_ok(*db),
    ensures
        r == spec_collide(*da, sa, *db, sb, ta, tb),
{
    let pa = parts_of(da, sa);
    let pb = parts_of(db, sb);
    let mut i: usize = 0;
    while i < pa.len()
        invariant
            i <= pa@.len(),
            pa@ == step_parts(*da, sa.action as int, sa.frame as int),
            pb@ == step_parts(*db, sb.action as int, sb.frame as int),
            state_ok(sa) && state_ok(sb) && data_ok(*da) && data_ok(*db),
            forall|x: int, y: int|
                0 <= x < i && 0 <= y < pb@.len() && #[trigger] pa@[x].4 == ta && #[trigger] pb@[y].4 == tb ==> !rects_meet(
                    part_rect(*da, sa.x, sa.y, pa@[x]),
                    part_rect(*db, sb.x, sb.y, pb@[y]),
                ),
        decreases pa@.len() - i,
    {
        let mut j: usize = 0;
        while j < pb.len()
            invariant
                i < pa@.len(),
                j <= pb@.len(),
                pa@ == step_parts(*da, sa.action as int, sa.frame as int),
                pb@ == step_parts(*db, sb.action as int, sb.frame as int),
                state_ok(sa) && state_ok(sb) && data_ok(*da) && data_ok(*db),
                forall|x: int, y: int|
                    0 <= x < i && 0 <= y < pb@.len() && #[trigger] pa@[x].4 == ta && #[trigger] pb@[y].4 == tb ==> !rects_meet(
                        part_rect(*da, sa.x, sa.y, pa@[x]),
                        part_rect(*db, sb.x, sb.y, pb@[y]),
                    ),
                forall|y: int|
                    0 <= y < j && pa@[i as int].4 == ta && #[trigger] pb@[y].4 == tb ==> !rects_meet(
                        part_rect(*da, sa.x, sa.y, pa@[i as int]),
                        part_rect(*db, sb.x, sb.y, pb@[y]),
                    ),
            decreases pb@.len() - j,
        {
            if pa[i].4 == ta && pb[j].4 == tb {
                proof {
                    assert(part_ok(da.acts@[sa.action as int].steps@[sa.frame as int].parts@[i as int]));
                    assert(part_ok(db.acts@[sb.action as int].steps@[sb.frame as int].parts@[j as int]));
                }
                let a = rect_of(da, sa.x, sa.y, pa[i]);
                let b = rect_of(db, sb.x, sb.y, pb[j]);
                if a.0 + a.2 - 1 >= b.0 && b.0 + b.2 - 1 >= a.0 && a.1 + a.3 - 1 >= b.1 && b.1 + b.3 - 1 >= a.1 {
                    assert(pa@[i as int].4 == ta && pb@[j as int].4 == tb);
                    return true;
                }
            }
            j = j + 1;
        }
        i = i + 1;
    }
    false
}


/// An actor inside its action's steps stays inside them when it ticks on: it either
/// stays in its step one tick later, moves to the next step, or starts the action
/// over.
pub proof fn next_stays_in_action(d: ActorData, s: ActorState)
    requires
        data_ok(d),
        state_ok(s),
        0 <= s.frame < act_steps(d, s.action as int),
        0 <= s.tick < 0x7FFF,
    ensures
        ({
            let (n, _r) = spec_next(d, s);
            &&& 0 <= n.frame < act_steps(d, s.action as int)
            &&& n.action == s.action && n.x == s.x && n.y == s.y
            &&& (n.frame == s.frame && n.tick == s.tick + 1) || (n.frame == s.frame + 1 && n.tick == s.tick + 1)
                || (n.frame == 0 && n.tick == 0)
        }),
{
    assert(-0x8000 <= d.acts@[s.action as int].nf <= 0x7FFF);
}

} // verus!
