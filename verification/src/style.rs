//! Which calling style a module's entry code uses: whether it stores into the
//! structure its first argument points to (the new style) or stores the argument
//! itself (the old style), read from the first instructions of its code.
use vstd::prelude::*;
use crate::session::chars_of;

verus! {

/// The calling style of a module.
#[derive(Clone, Copy, Debug, PartialEq, Eq, Structural)]
pub enum Style {
    New,
    Old,
}

/// An operand of a disassembled instruction: a register, memory addressed from a
/// base register, an immediate, or anything else.
#[derive(Clone, Copy, Debug, PartialEq, Eq, Structural)]
pub enum Operand {
    Reg(u16),
    Mem(u16),
    Imm(i64),
    Other,
}

/// A disassembled instruction: its mnemonic, its operands (`None` when the
/// disassembler gave no detail), and the registers it writes.
#[derive(Clone, Debug)]
pub struct Insn {
    pub mnemonic: String,
    pub ops: Option<Vec<Operand>>,
    pub regs_write: Vec<u16>,
}

/// The mathematical value of an instruction.
pub struct InsnView {
    pub mnemonic: Seq<char>,
    pub ops: Option<Seq<Operand>>,
    pub regs_write: Seq<u16>,
}

impl View for Insn {
    type V = InsnView;

    open spec fn view(&self) -> InsnView {
        InsnView {
            mnemonic: self.mnemonic@,
            ops: match self.ops {
                Some(v) => Some(v@),
                None => None,
            },
            regs_write: self.regs_write@,
        }
    }
}

/// The mathematical value of a list of instructions.
pub open spec fn insns_view(s: Seq<Insn>) -> Seq<InsnView> {
    s.map_values(|i: Insn| i@)
}

/// Whether `s` starts with `p`.
pub open spec fn starts(s: Seq<char>, p: Seq<char>) -> bool {
    s.len() >= p.len() && s.take(p.len() as int) == p
}

/// The register operand `k`, if operand `k` is a register.
pub open spec fn reg_of(ops: Seq<Operand>, k: int) -> Option<u16> {
    if 0 <= k < ops.len() {
        match ops[k] {
            Operand::Reg(r) => Some(r),
            _ => None,
        }
    } else {
        None
    }
}

/// The registers without `r`.
pub open spec fn drop_reg(regs: Seq<u16>, r: u16) -> Seq<u16>
    decreases regs.len(),
{
    if regs.len() == 0 {
        regs
    } else {
        let t = drop_reg(regs.drop_last(), r);
        if regs.last() != r { t.push(regs.last()) } else { t }
    }
}

/// The registers without any of `ws`, removed one after the other.
pub open spec fn drop_regs(regs: Seq<u16>, ws: Seq<u16>) -> Seq<u16>
    decreases ws.len(),
{
    if ws.len() == 0 { regs } else { drop_regs(drop_reg(regs, ws[0]), ws.drop_first()) }
}

/// Whether an instruction with mnemonic `mn` writes no destination register.
pub open spec fn no_dst(mn: Seq<char>) -> bool {
    starts(mn, "str"@) || starts(mn, "cmp"@) || starts(mn, "cmn"@) || starts(mn, "tst"@) || starts(mn, "teq"@)
        || starts(mn, "push"@) || starts(mn, "b"@)
}

/// The registers still holding the first argument after an instruction that writes
/// them: its destination (unless it has none) and every register it writes.
pub open spec fn after_write(args: Seq<u16>, mn: Seq<char>, ops: Seq<Operand>, writes: Seq<u16>) -> Seq<u16> {
    let a = if !no_dst(mn) && reg_of(ops, 0) is Some { drop_reg(args, reg_of(ops, 0)->0) } else { args };
    drop_regs(a, writes)
}

/// The style the instructions from `i` on show, `args` holding the registers that
/// hold the first argument: a `bl` ends the search (new style); a store through
/// such a register means the new style, a store of one the old; a plain move or add
/// of zero from one makes its destination one too; any other instruction's
/// destination and written registers stop being ones. The new style when nothing
/// decides.
pub open spec fn style_from(insns: Seq<InsnView>, i: int, args: Seq<u16>) -> Style
    decreases insns.len() - i,
{
    if i < 0 || i >= insns.len() {
        Style::New
    } else {
        let ins = insns[i];
        let mn = ins.mnemonic;
        if mn == "bl"@ {
            Style::New
        } else {
            match ins.ops {
                None => style_from(insns, i + 1, args),
                Some(ops) => if starts(mn, "str"@) {
                    if ops.len() == 2 && ops[1] is Mem && args.contains(ops[1]->Mem_0) {
                        Style::New
                    } else if ops.len() == 2 && ops[1] is Mem && reg_of(ops, 0) is Some && args.contains(reg_of(ops, 0)->0) {
                        Style::Old
                    } else {
                        style_from(insns, i + 1, args)
                    }
                } else {
                    let movish = mn == "mov"@ || mn == "movs"@ || mn == "add"@ || mn == "adds"@;
                    let plain = ops.len() == 2 || (ops.len() > 2 && ops[2] == Operand::Imm(0));
                    if movish && ops.len() >= 2 && reg_of(ops, 0) is Some && reg_of(ops, 1) is Some && plain
                        && args.contains(reg_of(ops, 1)->0) {
                        let d = reg_of(ops, 0)->0;
                        style_from(insns, i + 1, if args.contains(d) { args } else { args.push(d) })
                    } else {
                        style_from(insns, i + 1, after_write(args, mn, ops, ins.regs_write))
                    }
                },
            }
        }
    }
}

fn contains_reg(v: &Vec<u16>, r: u16) -> (b: bool)
    ensures
        b == v@.contains(r),
{
    let mut i: usize = 0;
    while i < v.len()
        invariant
            i <= v@.len(),
            forall|j: int| 0 <= j < i ==> v@[j] != r,
        decreases v@.len() - i,
    {
        if v[i] == r {
            assert(v@[i as int] == r);
            return true;
        }
        i = i + 1;
    }
    false
}

fn remove_reg(v: &Vec<u16>, r: u16) -> (o: Vec<u16>)
    ensures
        o@ == drop_reg(v@, r),
{
    let mut o: Vec<u16> = Vec::new();
    let mut i: usize = 0;
    assert(v@.take(0) =~= Seq::<u16>::empty());
    while i < v.len()
        invariant
            i <= v@.len(),
            o@ == drop_reg(v@.take(i as int), r),
        decreases v@.len() - i,
    {
        proof {
            assert(v@.take(i + 1).drop_last() =~= v@.take(i as int));
        }
        if v[i] != r {
            o.push(v[i]);
        }
        i = i + 1;
    }
    assert(v@.take(v@.len() as int) =~= v@);
    o
}

fn starts_with_str(s: &Vec<char>, p: &str) -> (b: bool)
    ensures
        b == starts(s@, p@),
{
    let pc = chars_of(p);
    if s.len() < pc.len() {
        return false;
    }
    let mut i: usize = 0;
    while i < pc.len()
        invariant
            i <= pc@.len() <= s@.len(),
            pc@ == p@,
            forall|j: int| 0 <= j < i ==> s@[j] == pc@[j],
        decreases pc@.len() - i,
    {
        if s[i] != pc[i] {
            assert(s@.take(pc@.len() as int)[i as int] != p@[i as int]);
            return false;
        }
        i = i + 1;
    }
    assert(s@.take(p@.len() as int) =~= p@);
    true
}

fn same_chars(s: &Vec<char>, p: &str) -> (b: bool)
    ensures
        b == (s@ == p@),
{
    let pc = chars_of(p);
    if s.len() != pc.len() {
        return false;
    }
    let r = starts_with_str(s, p);
    proof {
        assert(s@.take(p@.len() as int) =~= s@);
    }
    r
}

fn reg_at(ops: &Vec<Operand>, k: usize) -> (r: Option<u16>)
    ensures
        r == reg_of(ops@, k as int),
{
    if k < ops.len() {
        match ops[k] {
            Operand::Reg(r) => Some(r),
            _ => None,
        }
    } else {
        None
    }
}

/// The style of a module's entry code from its first instructions (see
/// `style_from`); `r0` is the register that holds the first argument.
pub fn entry_style(insns: &Vec<Insn>, r0: u16) -> (s: Style)
    ensures
        s == style_from(insns_view(insns@), 0, seq![r0]),
{
    let ghost iv = insns_view(insns@);
    let mut args: Vec<u16> = Vec::new();
    args.push(r0);
    assert(args@ =~= seq![r0]);
    let mut i: usize = 0;
    while i < insns.len()
        invariant
            i <= insns@.len(),
            iv == insns_view(insns@),
            style_from(iv, 0, seq![r0]) == style_from(iv, i as int, args@),
        decreases insns@.len() - i,
    {
        let ins = &insns[i];
        assert(iv[i as int] == ins@);
        let mn = chars_of(ins.mnemonic.as_str());
        if same_chars(&mn, "bl") {
            return Style::New;
        }
        match &ins.ops {
            None => {},
            Some(ops) => {
                if starts_with_str(&mn, "str") {
                    if ops.len() == 2 {
                        match ops[1] {
                            Operand::Mem(base) => {
                                if contains_reg(&args, base) {
                                    return Style::New;
                                }
                                match reg_at(ops, 0) {
                                    Some(r) => {
                                        if contains_reg(&args, r) {
                                            return Style::Old;
                                        }
                                    },
                                    None => {},
                                }
                            },
                            _ => {},
                        }
                    }
                } else {
                    let movish = same_chars(&mn, "mov") || same_chars(&mn, "movs") || same_chars(&mn, "add")
                        || same_chars(&mn, "adds");
                    let plain = ops.len() == 2 || (ops.len() > 2 && ops[2] == Operand::Imm(0));
                    let d = reg_at(ops, 0);
                    let sr = reg_at(ops, 1);
                    let mut moved = false;
                    if movish && ops.len() >= 2 && plain {
                        match (d, sr) {
                            (Some(dr), Some(s)) => {
                                if contains_reg(&args, s) {
                                    if !contains_reg(&args, dr) {
                                        args.push(dr);
                                    }
                                    moved = true;
                                }
                            },
                            _ => {},
                        }
                    }
                    if !moved {
                        let nd = starts_with_str(&mn, "str") || starts_with_str(&mn, "cmp") || starts_with_str(&mn, "cmn")
                            || starts_with_str(&mn, "tst") || starts_with_str(&mn, "teq") || starts_with_str(&mn, "push")
                            || starts_with_str(&mn, "b");
                        if !nd {
                            match d {
                                Some(dr) => {
                                    args = remove_reg(&args, dr);
                                },
                                None => {},
                            }
                        }
                        let ghost a1 = args@;
                        let mut k: usize = 0;
                        assert(ins.regs_write@.skip(0) =~= ins.regs_write@);
                        while k < ins.regs_write.len()
                            invariant
                                k <= ins.regs_write@.len(),
                                drop_regs(a1, ins.regs_write@) == drop_regs(args@, ins.regs_write@.skip(k as int)),
                            decreases ins.regs_write@.len() - k,
                        {
                            assert(ins.regs_write@.skip(k as int).drop_first() =~= ins.regs_write@.skip(k + 1));
                            args = remove_reg(&args, ins.regs_write[k]);
                            k = k + 1;
                        }
                        assert(ins.regs_write@.skip(0) =~= ins.regs_write@);
                    }
                }
            },
        }
        i = i + 1;
    }
    Style::New
}

} // verus!
