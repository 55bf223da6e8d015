use emucore::timers::{poll_tick, TrapStreak};
use emucore::style::{entry_style, Insn, Operand, Style};
use emucore::timers::{Timer, Timers};

#[test]
fn timers_fire_in_order_when_due() {
    let mut t = Timers::new();
    assert_eq!(t.start_timer(100, 50, 0, 7), 0);
    let a = t.start_timer(100, 50, 0x1000, 1);
    let b = t.start_timer(100, 10, 0x2000, 2);
    let c = t.start_timer(100, 200, 0x3000, 3);
    assert_eq!((a, b, c), (1, 2, 3));
    assert!(t.take_due(109).is_empty());
    assert_eq!(t.take_due(150), vec![
        Timer { id: 1, due: 150, cb: 0x1000, param: 1 },
        Timer { id: 2, due: 110, cb: 0x2000, param: 2 },
    ]);
    assert_eq!(t.timers, vec![Timer { id: 3, due: 300, cb: 0x3000, param: 3 }]);
    t.stop_timer(3);
    assert!(t.take_due(1000).is_empty());
    assert!(t.timers.is_empty());
}

fn insn(mn: &str, ops: Vec<Operand>) -> Insn {
    Insn { mnemonic: mn.to_string(), ops: Some(ops), regs_write: vec![] }
}

const R0: u16 = 66;
const R1: u16 = 67;
const R4: u16 = 70;

#[test]
fn store_through_the_argument_is_new_style() {
    let code = vec![insn("push", vec![Operand::Reg(R4)]), insn("str", vec![Operand::Reg(R1), Operand::Mem(R0)])];
    assert_eq!(entry_style(&code, R0), Style::New);
}

#[test]
fn store_of_the_argument_is_old_style() {
    let code = vec![
        insn("movs", vec![Operand::Reg(R4), Operand::Reg(R0)]),
        insn("str", vec![Operand::Reg(R4), Operand::Mem(R1)]),
    ];
    assert_eq!(entry_style(&code, R0), Style::Old);
}

#[test]
fn overwritten_argument_no_longer_counts() {
    let code = vec![
        insn("movs", vec![Operand::Reg(R0), Operand::Imm(5)]),
        insn("str", vec![Operand::Reg(R0), Operand::Mem(R1)]),
    ];
    assert_eq!(entry_style(&code, R0), Style::New);
    let code = vec![
        Insn { mnemonic: "ldr".to_string(), ops: Some(vec![Operand::Reg(R1), Operand::Mem(R4)]), regs_write: vec![R0] },
        insn("str", vec![Operand::Reg(R0), Operand::Mem(R1)]),
    ];
    assert_eq!(entry_style(&code, R0), Style::New);
}

#[test]
fn a_call_ends_the_search() {
    let code = vec![insn("bl", vec![]), insn("str", vec![Operand::Reg(R0), Operand::Mem(R1)])];
    assert_eq!(entry_style(&code, R0), Style::New);
    assert_eq!(entry_style(&vec![], R0), Style::New);
}

#[test]
fn polling_clock_moves_on() {
    let mut t = TrapStreak::new();
    t.hit(5);
    assert_eq!((t.last, t.same), (5, 0));
    t.hit(5);
    t.hit(5);
    assert_eq!(t.same, 2);
    t.hit(6);
    assert_eq!((t.last, t.same), (6, 0));
    assert_eq!(poll_tick(100, 8), 100);
    assert_eq!(poll_tick(100, 9), 101);
    assert_eq!(poll_tick(100, 65), 116);
}

#[test]
fn frame_clock_moves_per_frame() {
    let mut c = emucore::timers::FrameClock { tick: 0, frames: 0, gfx_frames: 0 };
    assert_eq!(c.frame_step(true, 0, 16), emucore::timers::FramePlan::OldCallback);
    assert_eq!((c.tick, c.frames, c.gfx_frames), (0, 1, 0));
    assert_eq!(c.frame_step(true, 1, 16), emucore::timers::FramePlan::Screens);
    assert_eq!(c.frame_step(false, 0, 16), emucore::timers::FramePlan::Screens);
    assert_eq!((c.tick, c.frames, c.gfx_frames), (32, 3, 2));
}
