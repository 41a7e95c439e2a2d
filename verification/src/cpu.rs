//! The CPU core: register files, the branch-delay bookkeeping, and the
//! interpreter for every decoded instruction. Console I/O and
//! floating-point arithmetic cannot be computed here; the interpreter
//! instead returns an [`Effect`] for each, and the driver answers through
//! the `provide_*` calls before the next cycle.

use vstd::prelude::*;
use crate::bits::{
    as_signed, as_signed_spec, branch_target, branch_target_spec, jump_addr, jump_addr_spec,
    sign_extend, sign_extend_spec, wadd, wrapping_add, wsub, wrapping_sub,
};
use crate::err::EmuError;
use crate::hierarchy::Hierarchy;
use crate::instr::{decode, decode_spec, FloatRegister, Instruction, Kind, Register};
use crate::stats::StatsReporter;

verus! {

/// The integer register file: 32 words, where index 0 reads as zero no
/// matter what was written.
pub struct RegisterFile {
    pub vals: Vec<u32>,
}

impl RegisterFile {
    pub open spec fn wf(&self) -> bool {
        self.vals.len() == 32 && self.vals@[0] == 0
    }

    /// Creates a zeroed file.
    pub fn new() -> (r: RegisterFile)
        ensures
            r.wf(),
            forall|i: int| 0 <= i < 32 ==> r.vals@[i] == 0,
    {
        let mut v: Vec<u32> = Vec::new();
        let mut i: usize = 0;
        while i < 32
            invariant
                i <= 32,
                v.len() == i,
                forall|j: int| 0 <= j < i ==> v@[j] == 0,
            decreases 32 - i,
        {
            v.push(0);
            i += 1;
        }
        RegisterFile { vals: v }
    }

    /// Reads a register; index 0 always yields zero.
    pub fn read(&self, r: Register) -> (v: u32)
        requires
            self.wf(),
            r.0 < 32,
        ensures
            v == self.vals@[r.0 as int],
    {
        self.vals[r.0 as usize]
    }

    /// Writes a register; a write to index 0 is accepted and discarded, so
    /// the next read still returns zero.
    pub fn write(&mut self, r: Register, v: u32)
        requires
            old(self).wf(),
            r.0 < 32,
        ensures
            final(self).wf(),
            final(self).vals@ == upd_reg(old(self).vals@, r.0 as int, v),
    {
        if r.0 != 0 {
            self.vals[r.0 as usize] = v;
        }
    }
}

/// The register file after a write: index 0 is immune.
pub open spec fn upd_reg(s: Seq<u32>, i: int, v: u32) -> Seq<u32> {
    if i == 0 {
        s
    } else {
        s.update(i, v)
    }
}

/// The floating-point register file: 32 words; doubles occupy even/odd
/// pairs with the low word at the even index.
pub struct FloatFile {
    pub vals: Vec<u32>,
}

impl FloatFile {
    pub open spec fn wf(&self) -> bool {
        self.vals.len() == 32
    }

    /// Creates a zeroed file.
    pub fn new() -> (r: FloatFile)
        ensures
            r.wf(),
            forall|i: int| 0 <= i < 32 ==> r.vals@[i] == 0,
    {
        let mut v: Vec<u32> = Vec::new();
        let mut i: usize = 0;
        while i < 32
            invariant
                i <= 32,
                v.len() == i,
                forall|j: int| 0 <= j < i ==> v@[j] == 0,
            decreases 32 - i,
        {
            v.push(0);
            i += 1;
        }
        FloatFile { vals: v }
    }

    /// Reads a register.
    pub fn read(&self, r: FloatRegister) -> (v: u32)
        requires
            self.wf(),
            r.0 < 32,
        ensures
            v == self.vals@[r.0 as int],
    {
        self.vals[r.0 as usize]
    }

    /// Writes a register.
    pub fn write(&mut self, r: FloatRegister, v: u32)
        requires
            old(self).wf(),
            r.0 < 32,
        ensures
            final(self).wf(),
            final(self).vals@ == old(self).vals@.update(r.0 as int, v),
    {
        self.vals[r.0 as usize] = v;
    }
}

/// A floating-point operation the driver must compute, with its operand
/// bits (single operands one word, double operands as low/high pairs).
#[derive(Clone, Copy, Debug, PartialEq, Eq, Structural)]
pub enum FpuOp {
    AddS(u32, u32),
    SubS(u32, u32),
    MulS(u32, u32),
    DivS(u32, u32),
    AddD(u32, u32, u32, u32),
    SubD(u32, u32, u32, u32),
    MulD(u32, u32, u32, u32),
    DivD(u32, u32, u32, u32),
    CvtDW(u32),
    CvtSD(u32, u32),
    CmpLtS(u32, u32),
}

/// What the CPU is waiting for after handing out an effect.
#[derive(Clone, Copy, Debug, PartialEq, Eq, Structural)]
pub enum Pending {
    /// Console: a signed integer for `$v0`.
    Int,
    /// Console: single-precision bits for `$f0`.
    Float,
    /// Console: double-precision bits for `($f0, $f1)`.
    Double,
    /// One word of floating-point result, landing in the given register.
    FpuWord(FloatRegister),
    /// A low/high pair of floating-point result words.
    FpuPair(FloatRegister),
    /// The floating-point condition code.
    FpuFlag,
}

/// What one cycle asks of the outside world. `Nothing` is the common case:
/// the instruction completed with no observable effect.
#[derive(Debug)]
pub enum Effect {
    Nothing,
    /// Print the signed decimal reading of the bits.
    PrintInt(u32),
    /// Print the single-precision value of the bits.
    PrintFloat(u32),
    /// Print the double-precision value of the low/high pair.
    PrintDouble(u32, u32),
    /// Print the gathered NUL-terminated bytes.
    PrintString(Vec<u8>),
    /// Print one character.
    PrintChar(u8),
    /// Read a signed integer line and answer with `provide_int`.
    ReadInt,
    /// Read a single-precision line and answer with `provide_float`.
    ReadFloat,
    /// Read a double-precision line and answer with `provide_double`.
    ReadDouble,
    /// Compute the operation and answer with the matching `provide_fpu_*`.
    Fpu(FpuOp),
    /// Dump memory (diagnostic only).
    Dump,
    /// An unknown syscall selector: warn and continue.
    UnknownSyscall(u32),
    /// The halt syscall ran: the main loop should exit.
    Halted,
}

/// The core state an instruction leaves behind, before the program counter
/// retires.
pub ghost struct ExecOut {
    pub regs: Seq<u32>,
    pub fregs: Seq<u32>,
    pub hi: u32,
    pub lo: u32,
    pub float_cc: bool,
    pub branch_to: Option<u32>,
    pub halted: bool,
    pub pending: Option<Pending>,
}

/// Arithmetic right shift: the sign bit is replicated into the vacated
/// positions.
pub open spec fn sra_spec(v: u32, sh: u32) -> u32
    recommends
        sh < 32,
{
    if sh == 0 {
        v
    } else if v < 0x8000_0000 {
        v >> sh
    } else {
        (v >> sh) | (0xFFFF_FFFFu32 << ((32 - sh) as u32))
    }
}

/// The 64-bit two's-complement product of two words, split as (lo, hi).
pub open spec fn mult_spec(a: u32, b: u32) -> (u32, u32) {
    let p = as_signed_spec(a) * as_signed_spec(b);
    let pu = if p < 0 {
        p + 0x1_0000_0000_0000_0000
    } else {
        p
    };
    (((pu % 0x1_0000_0000) as u32), ((pu / 0x1_0000_0000) as u32))
}

/// Signed division, truncating toward zero, over the words' signed
/// readings: (quotient bits, remainder bits).
pub open spec fn div_spec(a: u32, b: u32) -> (u32, u32)
    recommends
        b != 0,
{
    let sa = as_signed_spec(a);
    let sb = as_signed_spec(b);
    if sa == -0x8000_0000 && sb == -1 {
        (0x8000_0000u32, 0u32)
    } else {
        let qm = abs_of(sa) / abs_of(sb);
        let rm = abs_of(sa) % abs_of(sb);
        let q = if (sa < 0) != (sb < 0) {
            -qm
        } else {
            qm
        };
        let r = if sa < 0 {
            -rm
        } else {
            rm
        };
        (to_word(q), to_word(r))
    }
}

/// The absolute value.
pub open spec fn abs_of(x: int) -> int {
    if x < 0 {
        -x
    } else {
        x
    }
}

/// The word whose signed reading is `x` (for `x` in signed range).
pub open spec fn to_word(x: int) -> u32
    recommends
        -0x8000_0000 <= x < 0x8000_0000,
{
    if x >= 0 {
        x as u32
    } else {
        (x + 0x1_0000_0000) as u32
    }
}

/// The simulated processor: integer and floating-point register files, the
/// multiply/divide pair, the program counter with its branch-delay
/// bookkeeping, the halt flag, the pending-answer marker, the memory
/// hierarchy it drives and the statistics it gathers.
pub struct Cpu {
    pub regs: RegisterFile,
    pub fregs: FloatFile,
    pub hi: u32,
    pub lo: u32,
    pub pc: u32,
    pub in_delay_slot: bool,
    pub branch_to: Option<u32>,
    pub halted: bool,
    pub float_cc: bool,
    pub pending: Option<Pending>,
    pub mem: Hierarchy,
    pub stats: StatsReporter,
}

/// An integer register's value.
pub open spec fn rv(c: &Cpu, r: Register) -> u32 {
    c.regs.vals@[r.0 as int]
}

/// A floating-point register's value.
pub open spec fn fv(c: &Cpu, r: FloatRegister) -> u32 {
    c.fregs.vals@[r.0 as int]
}

/// The effective address of a load or store: base register plus
/// sign-extended displacement, wrapping.
pub open spec fn ea_spec(c: &Cpu, rs: Register, imm: u32) -> u32 {
    wadd(rv(c, rs), sign_extend_spec(imm, 16))
}

/// The state an instruction leaves unchanged.
pub open spec fn base_out(c: &Cpu) -> ExecOut {
    ExecOut {
        regs: c.regs.vals@,
        fregs: c.fregs.vals@,
        hi: c.hi,
        lo: c.lo,
        float_cc: c.float_cc,
        branch_to: c.branch_to,
        halted: c.halted,
        pending: c.pending,
    }
}

/// The effective address of the instruction's memory operand, where it has
/// one.
#[verifier::opaque]
pub open spec fn load_ea(c: &Cpu, i: Instruction) -> u32 {
    match i {
        Instruction::LW(a) => ea_spec(c, a.rs, a.imm),
        Instruction::LB(a) => ea_spec(c, a.rs, a.imm),
        Instruction::LWC1(a) => ea_spec(c, a.rs, a.imm),
        Instruction::LDC1(a) => ea_spec(c, a.rs, a.imm),
        _ => 0,
    }
}

/// What executing the instruction does to the core state, before the
/// program counter retires. `lv1` is the word its memory operand reads (and
/// `lv2` the second word of a double load).
#[verifier::opaque]
pub open spec fn exec_spec(c: &Cpu, i: Instruction, lv1: u32, lv2: u32) -> ExecOut {
    let b = base_out(c);
    match i {
        Instruction::NOP => b,
        Instruction::SLL(a) => ExecOut {
            regs: upd_reg(b.regs, a.rd.0 as int, rv(c, a.rt) << a.shamt),
            ..b
        },
        Instruction::SRL(a) => ExecOut {
            regs: upd_reg(b.regs, a.rd.0 as int, rv(c, a.rt) >> a.shamt),
            ..b
        },
        Instruction::SRA(a) => ExecOut {
            regs: upd_reg(b.regs, a.rd.0 as int, sra_spec(rv(c, a.rt), a.shamt)),
            ..b
        },
        Instruction::JR(a) => ExecOut { branch_to: Some(rv(c, a.rs)), ..b },
        Instruction::JALR(a) => ExecOut {
            regs: upd_reg(b.regs, a.rd.0 as int, wadd(c.pc, 8)),
            branch_to: Some(rv(c, a.rs)),
            ..b
        },
        Instruction::SYSCALL(_) => syscall_spec(c),
        Instruction::MFHI(a) => ExecOut { regs: upd_reg(b.regs, a.rd.0 as int, c.hi), ..b },
        Instruction::MFLO(a) => ExecOut { regs: upd_reg(b.regs, a.rd.0 as int, c.lo), ..b },
        Instruction::MULT(a) => ExecOut {
            lo: mult_spec(rv(c, a.rs), rv(c, a.rt)).0,
            hi: mult_spec(rv(c, a.rs), rv(c, a.rt)).1,
            ..b
        },
        Instruction::DIV(a) => ExecOut {
            lo: div_spec(rv(c, a.rs), rv(c, a.rt)).0,
            hi: div_spec(rv(c, a.rs), rv(c, a.rt)).1,
            ..b
        },
        Instruction::ADD(a) => ExecOut {
            regs: upd_reg(b.regs, a.rd.0 as int, wadd(rv(c, a.rs), rv(c, a.rt))),
            ..b
        },
        Instruction::ADDU(a) => ExecOut {
            regs: upd_reg(b.regs, a.rd.0 as int, wadd(rv(c, a.rs), rv(c, a.rt))),
            ..b
        },
        Instruction::SUB(a) => ExecOut {
            regs: upd_reg(b.regs, a.rd.0 as int, wsub(rv(c, a.rs), rv(c, a.rt))),
            ..b
        },
        Instruction::SUBU(a) => ExecOut {
            regs: upd_reg(b.regs, a.rd.0 as int, wsub(rv(c, a.rs), rv(c, a.rt))),
            ..b
        },
        Instruction::AND(a) => ExecOut {
            regs: upd_reg(b.regs, a.rd.0 as int, rv(c, a.rs) & rv(c, a.rt)),
            ..b
        },
        Instruction::OR(a) => ExecOut {
            regs: upd_reg(b.regs, a.rd.0 as int, rv(c, a.rs) | rv(c, a.rt)),
            ..b
        },
        Instruction::XOR(a) => ExecOut {
            regs: upd_reg(b.regs, a.rd.0 as int, rv(c, a.rs) ^ rv(c, a.rt)),
            ..b
        },
        Instruction::SLT(a) => ExecOut {
            regs: upd_reg(
                b.regs,
                a.rd.0 as int,
                if as_signed_spec(rv(c, a.rs)) < as_signed_spec(rv(c, a.rt)) {
                    1u32
                } else {
                    0u32
                },
            ),
            ..b
        },
        Instruction::SLTU(a) => ExecOut {
            regs: upd_reg(b.regs, a.rd.0 as int, if rv(c, a.rs) < rv(c, a.rt) {
                1u32
            } else {
                0u32
            }),
            ..b
        },
        Instruction::BGEZ(a) => if rv(c, a.rs) & 0x8000_0000 == 0 {
            ExecOut { branch_to: Some(branch_target_spec(c.pc, a.imm)), ..b }
        } else {
            b
        },
        Instruction::BAL(a) => ExecOut {
            regs: upd_reg(b.regs, 31, wadd(c.pc, 4)),
            branch_to: Some(branch_target_spec(c.pc, a.imm)),
            ..b
        },
        Instruction::BEQ(a) => if rv(c, a.rs) == rv(c, a.rt) {
            ExecOut { branch_to: Some(branch_target_spec(c.pc, a.imm)), ..b }
        } else {
            b
        },
        Instruction::BNE(a) => if rv(c, a.rs) != rv(c, a.rt) {
            ExecOut { branch_to: Some(branch_target_spec(c.pc, a.imm)), ..b }
        } else {
            b
        },
        Instruction::BLEZ(a) => if as_signed_spec(rv(c, a.rs)) <= 0 {
            ExecOut { branch_to: Some(branch_target_spec(c.pc, a.imm)), ..b }
        } else {
            b
        },
        Instruction::ADDI(a) => ExecOut {
            regs: upd_reg(b.regs, a.rt.0 as int, wadd(rv(c, a.rs), sign_extend_spec(a.imm, 16))),
            ..b
        },
        Instruction::ADDIU(a) => ExecOut {
            regs: upd_reg(b.regs, a.rt.0 as int, wadd(rv(c, a.rs), sign_extend_spec(a.imm, 16))),
            ..b
        },
        Instruction::SLTI(a) => ExecOut {
            regs: upd_reg(
                b.regs,
                a.rt.0 as int,
                if as_signed_spec(rv(c, a.rs)) < as_signed_spec(sign_extend_spec(a.imm, 16)) {
                    1u32
                } else {
                    0u32
                },
            ),
            ..b
        },
        Instruction::ANDI(a) => ExecOut {
            regs: upd_reg(b.regs, a.rt.0 as int, rv(c, a.rs) & a.imm),
            ..b
        },
        Instruction::ORI(a) => ExecOut {
            regs: upd_reg(b.regs, a.rt.0 as int, rv(c, a.rs) | a.imm),
            ..b
        },
        Instruction::LUI(a) => ExecOut {
            regs: upd_reg(b.regs, a.rt.0 as int, a.imm << 16),
            ..b
        },
        Instruction::LB(a) => ExecOut {
            regs: upd_reg(b.regs, a.rt.0 as int, sign_extend_spec(lv1, 8)),
            ..b
        },
        Instruction::LW(a) => ExecOut { regs: upd_reg(b.regs, a.rt.0 as int, lv1), ..b },
        Instruction::SW(_) => b,
        Instruction::LWC1(a) => ExecOut { fregs: b.fregs.update(a.rt.0 as int, lv1), ..b },
        Instruction::LDC1(a) => ExecOut {
            fregs: b.fregs.update(a.rt.0 as int, lv1).update(a.rt.0 as int + 1, lv2),
            ..b
        },
        Instruction::SWC1(_) => b,
        Instruction::J(t) => ExecOut { branch_to: Some(jump_addr_spec(c.pc, t)), ..b },
        Instruction::JAL(t) => ExecOut {
            regs: upd_reg(b.regs, 31, wadd(c.pc, 4)),
            branch_to: Some(jump_addr_spec(c.pc, t)),
            ..b
        },
        Instruction::MFC1(a) => ExecOut {
            regs: upd_reg(b.regs, a.ft.0 as int, fv(c, a.fs)),
            ..b
        },
        Instruction::MTC1(a) => ExecOut {
            fregs: b.fregs.update(a.fs.0 as int, rv(c, Register(a.ft.0))),
            ..b
        },
        Instruction::MOV_S(a) => ExecOut { fregs: b.fregs.update(a.fd.0 as int, fv(c, a.fs)), ..b },
        Instruction::MOV_D(a) => ExecOut {
            fregs: b.fregs.update(a.fd.0 as int, fv(c, a.fs)).update(
                a.fd.0 as int + 1,
                c.fregs.vals@[a.fs.0 as int + 1],
            ),
            ..b
        },
        Instruction::ADD_S(a) => ExecOut { pending: Some(Pending::FpuWord(a.fd)), ..b },
        Instruction::SUB_S(a) => ExecOut { pending: Some(Pending::FpuWord(a.fd)), ..b },
        Instruction::MUL_S(a) => ExecOut { pending: Some(Pending::FpuWord(a.fd)), ..b },
        Instruction::DIV_S(a) => ExecOut { pending: Some(Pending::FpuWord(a.fd)), ..b },
        Instruction::ADD_D(a) => ExecOut { pending: Some(Pending::FpuPair(a.fd)), ..b },
        Instruction::SUB_D(a) => ExecOut { pending: Some(Pending::FpuPair(a.fd)), ..b },
        Instruction::MUL_D(a) => ExecOut { pending: Some(Pending::FpuPair(a.fd)), ..b },
        Instruction::DIV_D(a) => ExecOut { pending: Some(Pending::FpuPair(a.fd)), ..b },
        Instruction::CVT_D_W(a) => ExecOut { pending: Some(Pending::FpuPair(a.fd)), ..b },
        Instruction::CVT_S_D(a) => ExecOut { pending: Some(Pending::FpuWord(a.fd)), ..b },
        Instruction::C_LT_S(_) => ExecOut { pending: Some(Pending::FpuFlag), ..b },
        Instruction::BC1T(a) => if c.float_cc {
            ExecOut { branch_to: Some(branch_target_spec(c.pc, a.imm)), ..b }
        } else {
            b
        },
        Instruction::BC1F(a) => if !c.float_cc {
            ExecOut { branch_to: Some(branch_target_spec(c.pc, a.imm)), ..b }
        } else {
            b
        },
    }
}

/// What a syscall does to the core state: the selector in `$v0` decides.
/// Console reads leave a pending marker; the halt selector sets the flag;
/// everything else only has an outward effect.
#[verifier::opaque]
pub open spec fn syscall_spec(c: &Cpu) -> ExecOut {
    let b = base_out(c);
    let v0 = rv(c, Register(2));
    if v0 == 5 {
        ExecOut { pending: Some(Pending::Int), ..b }
    } else if v0 == 6 {
        ExecOut { pending: Some(Pending::Float), ..b }
    } else if v0 == 7 {
        ExecOut { pending: Some(Pending::Double), ..b }
    } else if v0 == 10 {
        ExecOut { halted: true, ..b }
    } else {
        b
    }
}

/// A fault the instruction itself raises: an unaligned memory operand, a
/// zero divisor, or a double-width register pair running off the end of the
/// file.
#[verifier::opaque]
pub open spec fn instr_fault(c: &Cpu, i: Instruction) -> Option<EmuError> {
    match i {
        Instruction::LW(a) => align_fault(ea_spec(c, a.rs, a.imm)),
        Instruction::LB(a) => align_fault(ea_spec(c, a.rs, a.imm)),
        Instruction::SW(a) => align_fault(ea_spec(c, a.rs, a.imm)),
        Instruction::LWC1(a) => align_fault(ea_spec(c, a.rs, a.imm)),
        Instruction::SWC1(a) => align_fault(ea_spec(c, a.rs, a.imm)),
        Instruction::LDC1(a) => if a.rt.0 >= 31 {
            Some(EmuError::UnimplementedInstruction)
        } else {
            align_fault(ea_spec(c, a.rs, a.imm))
        },
        Instruction::DIV(a) => if rv(c, a.rt) == 0 {
            Some(EmuError::DivideByZero)
        } else {
            None
        },
        Instruction::MOV_D(a) => pair_fault(a.fd.0, a.fs.0, a.fs.0),
        Instruction::ADD_D(a) => pair_fault(a.fd.0, a.fs.0, a.ft.0),
        Instruction::SUB_D(a) => pair_fault(a.fd.0, a.fs.0, a.ft.0),
        Instruction::MUL_D(a) => pair_fault(a.fd.0, a.fs.0, a.ft.0),
        Instruction::DIV_D(a) => pair_fault(a.fd.0, a.fs.0, a.ft.0),
        Instruction::CVT_D_W(a) => if a.fd.0 >= 31 {
            Some(EmuError::UnimplementedInstruction)
        } else {
            None
        },
        Instruction::CVT_S_D(a) => if a.fs.0 >= 31 || a.fd.0 >= 32 {
            Some(EmuError::UnimplementedInstruction)
        } else {
            None
        },
        _ => None,
    }
}

/// An alignment fault for a word access.
pub open spec fn align_fault(a: u32) -> Option<EmuError> {
    if a % 4 != 0 {
        Some(EmuError::Alignment { addr: a })
    } else {
        None
    }
}

/// Double-width operands must fit register pairs.
pub open spec fn pair_fault(fd: u32, fs: u32, ft: u32) -> Option<EmuError> {
    if fd >= 31 || fs >= 31 || ft >= 31 {
        Some(EmuError::UnimplementedInstruction)
    } else {
        None
    }
}

/// The program counter's retirement rule: if the cycle started inside a
/// branch-delay slot and a branch is pending, the branch lands; otherwise
/// the counter moves to the next sequential instruction and a freshly taken
/// branch marks the next cycle as the delay slot.
pub open spec fn retire_ok(c0: &Cpu, c1: &Cpu, bt: Option<u32>) -> bool {
    let dly = match c0.branch_to {
        Some(t) => t != c0.pc || c0.in_delay_slot,
        None => c0.in_delay_slot,
    };
    match bt {
        Some(t) => if dly {
            c1.pc == t && !c1.in_delay_slot && c1.branch_to is None
        } else {
            c1.pc == wadd(c0.pc, 4) && c1.in_delay_slot == dly && c1.branch_to == bt
        },
        None => c1.pc == wadd(c0.pc, 4) && c1.in_delay_slot == dly && c1.branch_to == bt,
    }
}

/// What the cycle's effect must be for each instruction.
#[verifier::opaque]
pub open spec fn effect_ok(c0: &Cpu, c1: &Cpu, i: Instruction, eff: &Effect) -> bool {
    match i {
        Instruction::SYSCALL(_) => {
            let v0 = rv(c0, Register(2));
            if v0 == 1 {
                *eff == Effect::PrintInt(rv(c0, Register(4)))
            } else if v0 == 2 {
                *eff == Effect::PrintFloat(fv(c0, FloatRegister(12)))
            } else if v0 == 3 {
                *eff == Effect::PrintDouble(fv(c0, FloatRegister(12)), fv(c0, FloatRegister(13)))
            } else if v0 == 4 {
                match eff {
                    Effect::PrintString(bs) => crate::hierarchy::cstring_spec(
                        &c1.mem,
                        rv(c0, Register(4)) & 0xFFFF_FFFC,
                        (rv(c0, Register(4)) % 4) as int,
                    ) == Some(bs@),
                    _ => false,
                }
            } else if v0 == 5 {
                *eff == Effect::ReadInt
            } else if v0 == 6 {
                *eff == Effect::ReadFloat
            } else if v0 == 7 {
                *eff == Effect::ReadDouble
            } else if v0 == 10 {
                *eff == Effect::Halted
            } else if v0 == 11 {
                *eff == Effect::PrintChar((rv(c0, Register(4)) & 0xFF) as u8)
            } else if v0 == 500 {
                *eff == Effect::Dump
            } else {
                *eff == Effect::UnknownSyscall(v0)
            }
        },
        Instruction::ADD_S(a) => *eff == Effect::Fpu(FpuOp::AddS(fv(c0, a.fs), fv(c0, a.ft))),
        Instruction::SUB_S(a) => *eff == Effect::Fpu(FpuOp::SubS(fv(c0, a.fs), fv(c0, a.ft))),
        Instruction::MUL_S(a) => *eff == Effect::Fpu(FpuOp::MulS(fv(c0, a.fs), fv(c0, a.ft))),
        Instruction::DIV_S(a) => *eff == Effect::Fpu(FpuOp::DivS(fv(c0, a.fs), fv(c0, a.ft))),
        Instruction::ADD_D(a) => *eff == Effect::Fpu(
            FpuOp::AddD(
                fv(c0, a.fs),
                c0.fregs.vals@[a.fs.0 as int + 1],
                fv(c0, a.ft),
                c0.fregs.vals@[a.ft.0 as int + 1],
            ),
        ),
        Instruction::SUB_D(a) => *eff == Effect::Fpu(
            FpuOp::SubD(
                fv(c0, a.fs),
                c0.fregs.vals@[a.fs.0 as int + 1],
                fv(c0, a.ft),
                c0.fregs.vals@[a.ft.0 as int + 1],
            ),
        ),
        Instruction::MUL_D(a) => *eff == Effect::Fpu(
            FpuOp::MulD(
                fv(c0, a.fs),
                c0.fregs.vals@[a.fs.0 as int + 1],
                fv(c0, a.ft),
                c0.fregs.vals@[a.ft.0 as int + 1],
            ),
        ),
        Instruction::DIV_D(a) => *eff == Effect::Fpu(
            FpuOp::DivD(
                fv(c0, a.fs),
                c0.fregs.vals@[a.fs.0 as int + 1],
                fv(c0, a.ft),
                c0.fregs.vals@[a.ft.0 as int + 1],
            ),
        ),
        Instruction::CVT_D_W(a) => *eff == Effect::Fpu(FpuOp::CvtDW(fv(c0, a.fs))),
        Instruction::CVT_S_D(a) => *eff == Effect::Fpu(
            FpuOp::CvtSD(fv(c0, a.fs), c0.fregs.vals@[a.fs.0 as int + 1]),
        ),
        Instruction::C_LT_S(a) => *eff == Effect::Fpu(FpuOp::CmpLtS(fv(c0, a.fs), fv(c0, a.ft))),
        _ => *eff matches Effect::Nothing,
    }
}

/// What the cycle does to memory: a store lands its word; everything else
/// leaves the data-side view alone (in a split level, the fetch itself may
/// migrate a block between the sister caches, so the claim is made for the
/// flat and unified levels).
#[verifier::opaque]
pub open spec fn mem_ok(c0: &Cpu, c1: &Cpu, i: Instruction) -> bool {
    match i {
        Instruction::SW(a) => {
            let ad = ea_spec(c0, a.rs, a.imm);
            &&& c1.mem.dview(ad) == rv(c0, a.rt)
            &&& !c1.mem.icache_holds(ad)
            &&& (!(c0.mem.levels is Split) ==> (forall|x: u32| x % 4 == 0
                ==> #[trigger] c1.mem.dview(x) == (if x == ad {
                rv(c0, a.rt)
            } else {
                c0.mem.dview(x)
            })))
        },
        Instruction::SWC1(a) => {
            let ad = ea_spec(c0, a.rs, a.imm);
            &&& c1.mem.dview(ad) == fv(c0, FloatRegister(a.rt.0))
            &&& !c1.mem.icache_holds(ad)
            &&& (!(c0.mem.levels is Split) ==> (forall|x: u32| x % 4 == 0
                ==> #[trigger] c1.mem.dview(x) == (if x == ad {
                fv(c0, FloatRegister(a.rt.0))
            } else {
                c0.mem.dview(x)
            })))
        },
        _ => !(c0.mem.levels is Split) ==> (forall|x: u32| x % 4 == 0
            ==> #[trigger] c1.mem.dview(x) == c0.mem.dview(x)),
    }
}

/// What the cycle does to the statistics: one instruction of the decoded
/// family is counted, cycles only grow, and the halt syscall stamps the
/// finish time.
pub open spec fn stats_ok(c0: &Cpu, c1: &Cpu, i: Instruction) -> bool {
    let k = i.kind_spec();
    &&& c1.stats.n_r == (if k == Kind::R {
        crate::ram::sat_add64(c0.stats.n_r, 1)
    } else {
        c0.stats.n_r
    })
    &&& c1.stats.n_i == (if k == Kind::I {
        crate::ram::sat_add64(c0.stats.n_i, 1)
    } else {
        c0.stats.n_i
    })
    &&& c1.stats.n_j == (if k == Kind::J {
        crate::ram::sat_add64(c0.stats.n_j, 1)
    } else {
        c0.stats.n_j
    })
    &&& c1.stats.n_fr == (if k == Kind::FR {
        crate::ram::sat_add64(c0.stats.n_fr, 1)
    } else {
        c0.stats.n_fr
    })
    &&& c1.stats.n_fi == (if k == Kind::FI {
        crate::ram::sat_add64(c0.stats.n_fi, 1)
    } else {
        c0.stats.n_fi
    })
    &&& c1.stats.n_cycles >= c0.stats.n_cycles
    &&& (match fetch_cost_known(c0) {
        Some(f) => {
            &&& (unit_cost(c0, i) ==> c1.stats.n_cycles == crate::ram::sat_add64(
                crate::ram::sat_add64(c0.stats.n_cycles, f),
                1,
            ))
            &&& (zero_cost(c0, i) ==> c1.stats.n_cycles == crate::ram::sat_add64(
                c0.stats.n_cycles,
                f,
            ))
        },
        None => true,
    })
    &&& c1.stats.start_at == c0.stats.start_at
    &&& c1.stats.finish_at == (if i matches Instruction::SYSCALL(_) && rv(c0, Register(2)) == 10 {
        c1.stats.finish_at
    } else {
        c0.stats.finish_at
    })
    &&& (i matches Instruction::SYSCALL(_) && rv(c0, Register(2)) == 10
        ==> c1.stats.finish_at is Some)
}

/// Instructions that cost exactly one cycle in the execute stage:
/// everything but the memory operations, the console-string walk, and the
/// free syscalls.
pub open spec fn unit_cost(c0: &Cpu, i: Instruction) -> bool {
    match i {
        Instruction::LW(_) => false,
        Instruction::LB(_) => false,
        Instruction::SW(_) => false,
        Instruction::LWC1(_) => false,
        Instruction::SWC1(_) => false,
        Instruction::LDC1(_) => false,
        Instruction::SYSCALL(_) => {
            let v0 = rv(c0, Register(2));
            v0 == 1 || v0 == 2 || v0 == 3 || v0 == 5 || v0 == 6 || v0 == 7 || v0 == 10 || v0
                == 11
        },
        _ => true,
    }
}

/// Syscalls that cost nothing in the execute stage: the diagnostic dump
/// and unknown selectors.
pub open spec fn zero_cost(c0: &Cpu, i: Instruction) -> bool {
    match i {
        Instruction::SYSCALL(_) => {
            let v0 = rv(c0, Register(2));
            !(v0 == 1 || v0 == 2 || v0 == 3 || v0 == 4 || v0 == 5 || v0 == 6 || v0 == 7 || v0
                == 10 || v0 == 11)
        },
        _ => false,
    }
}

/// The fetch's cycle cost, where the memory configuration determines it:
/// RAM's latency on the flat level, the first-level latency when the fetch
/// hits (or the sister satisfies it).
pub open spec fn fetch_cost_known(c0: &Cpu) -> Option<u64> {
    match c0.mem.levels {
        crate::hierarchy::Levels::Flat { ram } => Some(ram.latency_spec()),
        crate::hierarchy::Levels::Unified { l1, .. } => if l1.has_valid_line(c0.pc) {
            Some(l1.latency)
        } else {
            None
        },
        crate::hierarchy::Levels::Split { d, i, .. } => if i.has_valid_line(c0.pc) || d.has_line(
            c0.pc,
        ) {
            Some(i.latency)
        } else {
            None
        },
    }
}

/// The execute stage's statistics effect: family counters do not move (the
/// fetch stage counted the instruction), cycles only grow, and the halt
/// syscall stamps the finish time. Non-memory instructions cost exactly
/// one cycle here; the free syscalls cost none.
pub open spec fn exec_stats_ok(c0: &Cpu, c1: &Cpu, i: Instruction) -> bool {
    &&& c1.stats.n_r == c0.stats.n_r
    &&& c1.stats.n_i == c0.stats.n_i
    &&& c1.stats.n_j == c0.stats.n_j
    &&& c1.stats.n_fr == c0.stats.n_fr
    &&& c1.stats.n_fi == c0.stats.n_fi
    &&& c1.stats.n_cycles >= c0.stats.n_cycles
    &&& (unit_cost(c0, i) ==> c1.stats.n_cycles == crate::ram::sat_add64(c0.stats.n_cycles, 1))
    &&& (zero_cost(c0, i) ==> c1.stats.n_cycles == c0.stats.n_cycles)
    &&& c1.stats.start_at == c0.stats.start_at
    &&& c1.stats.finish_at == (if i matches Instruction::SYSCALL(_) && rv(c0, Register(2)) == 10 {
        c1.stats.finish_at
    } else {
        c0.stats.finish_at
    })
    &&& (i matches Instruction::SYSCALL(_) && rv(c0, Register(2)) == 10
        ==> c1.stats.finish_at is Some)
}

/// The execute stage completed: no fault, the core state is the
/// instruction's semantics, the program counter and delay flag are
/// untouched (retirement is the caller's), and memory, the effect and the
/// statistics moved accordingly.
pub open spec fn exec_stage_ok(c0: &Cpu, c1: &Cpu, i: Instruction, eff: &Effect) -> bool {
    let lv1 = c1.mem.dview(load_ea(c0, i));
    let lv2 = c1.mem.dview(wadd(load_ea(c0, i), 4));
    let ex = exec_spec(c0, i, lv1, lv2);
    &&& instr_fault(c0, i) is None
    &&& c1.regs.vals@ == ex.regs
    &&& c1.fregs.vals@ == ex.fregs
    &&& c1.hi == ex.hi
    &&& c1.lo == ex.lo
    &&& c1.float_cc == ex.float_cc
    &&& c1.halted == ex.halted
    &&& c1.pending == ex.pending
    &&& c1.branch_to == ex.branch_to
    &&& c1.pc == c0.pc
    &&& c1.in_delay_slot == c0.in_delay_slot
    &&& effect_ok(c0, c1, i, eff)
    &&& mem_ok(c0, c1, i)
    &&& exec_stats_ok(c0, c1, i)
}

/// The execute stage faulted: nothing observable moved, and the error is
/// the instruction's own fault (or the console string ran off the address
/// space).
pub open spec fn exec_stage_fault(c0: &Cpu, c1: &Cpu, i: Instruction, e: EmuError) -> bool {
    &&& c1.pc == c0.pc
    &&& c1.halted == c0.halted
    &&& c1.regs.vals@ == c0.regs.vals@
    &&& c1.fregs.vals@ == c0.fregs.vals@
    &&& c1.in_delay_slot == c0.in_delay_slot
    &&& c1.branch_to == c0.branch_to
    &&& (instr_fault(c0, i) == Some(e) || (i matches Instruction::SYSCALL(_) && rv(
        c0,
        Register(2),
    ) == 4 && e == EmuError::Io && crate::hierarchy::cstring_spec(
        &c1.mem,
        rv(c0, Register(4)) & 0xFFFF_FFFC,
        (rv(c0, Register(4)) % 4) as int,
    ) is None))
}

/// The instruction semantics read only the core state: two processors
/// agreeing on the register files, the special registers, the flags and the
/// program counter agree on what an instruction does, faults, addresses and
/// outward effects included.
pub proof fn lemma_core_congruence(ca: &Cpu, cb: &Cpu, i: Instruction, l1: u32, l2: u32)
    requires
        ca.regs == cb.regs,
        ca.fregs == cb.fregs,
        ca.hi == cb.hi,
        ca.lo == cb.lo,
        ca.float_cc == cb.float_cc,
        ca.branch_to == cb.branch_to,
        ca.halted == cb.halted,
        ca.pending == cb.pending,
        ca.pc == cb.pc,
    ensures
        exec_spec(ca, i, l1, l2) == exec_spec(cb, i, l1, l2),
        load_ea(ca, i) == load_ea(cb, i),
        instr_fault(ca, i) == instr_fault(cb, i),
        forall|c1: &Cpu, eff: &Effect| effect_ok(ca, c1, i, eff) == #[trigger] effect_ok(
            cb,
            c1,
            i,
            eff,
        ),
{
    reveal(exec_spec);
    reveal(effect_ok);
    reveal(syscall_spec);
    reveal(instr_fault);
    reveal(load_ea);
}

/// Reads of register zero yield zero no matter what was written: the write
/// path discards stores to index zero, so well-formedness pins the value.
pub proof fn lemma_zero_register_reads_zero(rf: &RegisterFile)
    requires
        rf.wf(),
    ensures
        rf.vals@[0] == 0,
        forall|i: int, v: u32| 0 <= i < 32 ==> #[trigger] upd_reg(rf.vals@, i, v)[0] == 0,
{
    assert forall|i: int, v: u32| 0 <= i < 32 implies #[trigger] upd_reg(rf.vals@, i, v)[0] == 0
        by {
        if i != 0 {
            assert(upd_reg(rf.vals@, i, v) == rf.vals@.update(i, v));
        }
    }
}

/// After a taken branch, exactly one sequential instruction executes before
/// the target lands: a cycle that starts with a pending branch whose target
/// is not the current counter runs the delay-slot instruction, and if that
/// instruction leaves the pending branch as it is, the counter lands on the
/// target with nothing pending.
pub proof fn lemma_delay_slot_then_branch_lands(c0: &Cpu, c1: &Cpu, eff: &Effect, t: u32)
    requires
        cycle_ok(c0, c1, eff),
        c0.branch_to == Some(t),
        t != c0.pc,
    ensures
        ({
            let w = c0.mem.iview(c0.pc);
            match decode_spec(w) {
                Some(i) => {
                    let lv1 = c1.mem.dview(load_ea(c0, i));
                    let lv2 = c1.mem.dview(wadd(load_ea(c0, i), 4));
                    exec_spec(c0, i, lv1, lv2).branch_to == Some(t) ==> (c1.pc == t
                        && c1.branch_to is None && !c1.in_delay_slot)
                },
                None => false,
            }
        }),
{
}

/// Chains the execute stage's memory claim back to the cycle's entry
/// state: the fetch between them preserves the data-side view except in a
/// split level, where no claim is made.
pub proof fn lemma_mem_ok_chain(ca: &Cpu, c1a: &Cpu, cb: &Cpu, c1b: &Cpu, i: Instruction)
    requires
        mem_ok(ca, c1a, i),
        ca.regs == cb.regs,
        ca.fregs == cb.fregs,
        c1b.mem == c1a.mem,
        (cb.mem.levels is Split) == (ca.mem.levels is Split),
        !(cb.mem.levels is Split) ==> (forall|x: u32| x % 4 == 0 ==> #[trigger] ca.mem.dview(x)
            == cb.mem.dview(x)),
    ensures
        mem_ok(cb, c1b, i),
{
    reveal(mem_ok);
}

/// The outward effect of a cycle depends on the final state only through
/// its memory.
pub proof fn lemma_effect_mem_only(c0: &Cpu, c1a: &Cpu, c1b: &Cpu, i: Instruction, eff: &Effect)
    requires
        effect_ok(c0, c1a, i, eff),
        c1b.mem == c1a.mem,
    ensures
        effect_ok(c0, c1b, i, eff),
{
    reveal(effect_ok);
}

/// One completed cycle: the fetched word decodes, no fault was raised, the
/// core state is exactly what the instruction's semantics say, the program
/// counter retired by the delay-slot rule, and memory, the effect and the
/// statistics moved accordingly.
pub open spec fn cycle_ok(c0: &Cpu, c1: &Cpu, eff: &Effect) -> bool {
    let w = c0.mem.iview(c0.pc);
    match decode_spec(w) {
        None => false,
        Some(i) => {
            let lv1 = c1.mem.dview(load_ea(c0, i));
            let lv2 = c1.mem.dview(wadd(load_ea(c0, i), 4));
            let ex = exec_spec(c0, i, lv1, lv2);
            &&& c0.pc % 4 == 0
            &&& instr_fault(c0, i) is None
            &&& c1.regs.vals@ == ex.regs
            &&& c1.fregs.vals@ == ex.fregs
            &&& c1.hi == ex.hi
            &&& c1.lo == ex.lo
            &&& c1.float_cc == ex.float_cc
            &&& c1.halted == ex.halted
            &&& c1.pending == ex.pending
            &&& retire_ok(c0, c1, ex.branch_to)
            &&& effect_ok(c0, c1, i, eff)
            &&& mem_ok(c0, c1, i)
            &&& stats_ok(c0, c1, i)
        },
    }
}

/// A faulted cycle: the program counter, the register file and the halt
/// flag did not move, and the error is exactly the first fault on the way:
/// a misaligned fetch, an unknown encoding, or the instruction's own fault.
pub open spec fn cycle_fault(c0: &Cpu, c1: &Cpu, e: EmuError) -> bool {
    let w = c0.mem.iview(c0.pc);
    &&& c1.pc == c0.pc
    &&& c1.halted == c0.halted
    &&& c1.regs.vals@ == c0.regs.vals@
    &&& c1.fregs.vals@ == c0.fregs.vals@
    &&& c1.branch_to == c0.branch_to
    &&& c1.in_delay_slot == (match c0.branch_to {
        Some(t) => t != c0.pc || c0.in_delay_slot,
        None => c0.in_delay_slot,
    })
    &&& if c0.pc % 4 != 0 {
        e == (EmuError::Alignment { addr: c0.pc })
    } else {
        match decode_spec(w) {
            None => e == (EmuError::Decode { opcode: w >> 26, funct: w & 63 }),
            Some(i) => instr_fault(c0, i) == Some(e) || (i matches Instruction::SYSCALL(_) && rv(
                c0,
                Register(2),
            ) == 4 && e == EmuError::Io && crate::hierarchy::cstring_spec(
                &c1.mem,
                rv(c0, Register(4)) & 0xFFFF_FFFC,
                (rv(c0, Register(4)) % 4) as int,
            ) is None),
        }
    }
}

impl Cpu {
    /// Well-formedness: both register files and the hierarchy.
    pub open spec fn wf(&self) -> bool {
        self.regs.wf() && self.fregs.wf() && self.mem.wf()
    }

    /// Builds a CPU over the given hierarchy: the program counter at
    /// `entry`, the stack and global pointers seeded, everything else
    /// zeroed, not halted, no branch pending.
    pub fn new(mem: Hierarchy, entry: u32, sp: u32, gp: u32) -> (r: Cpu)
        requires
            mem.wf(),
        ensures
            r.wf(),
            r.pc == entry,
            r.mem == mem,
            !r.halted,
            !r.in_delay_slot,
            r.branch_to is None,
            r.pending is None,
            !r.float_cc,
            r.hi == 0 && r.lo == 0,
            forall|j: int| 0 <= j < 32 && j != 28 && j != 29 ==> r.regs.vals@[j] == 0,
            r.regs.vals@[28] == gp,
            r.regs.vals@[29] == sp,
            forall|j: int| 0 <= j < 32 ==> r.fregs.vals@[j] == 0,
            r.stats.n_cycles == 0 && r.stats.total_spec() == 0,
            r.stats.start_at is None && r.stats.finish_at is None,
    {
        let mut regs = RegisterFile::new();
        regs.write(Register(28), gp);
        regs.write(Register(29), sp);
        Cpu {
            regs,
            fregs: FloatFile::new(),
            hi: 0,
            lo: 0,
            pc: entry,
            in_delay_slot: false,
            branch_to: None,
            halted: false,
            float_cc: false,
            pending: None,
            mem,
            stats: StatsReporter::new(),
        }
    }
}

/// Computes the arithmetic right shift.
fn sra_exec(v: u32, sh: u32) -> (r: u32)
    requires
        sh < 32,
    ensures
        r == sra_spec(v, sh),
{
    if sh == 0 {
        v
    } else if v < 0x8000_0000 {
        v >> sh
    } else {
        (v >> sh) | (0xFFFF_FFFFu32 << (32 - sh))
    }
}

/// Computes the 64-bit signed product, split into (lo, hi) words.
fn mult_exec(a: u32, b: u32) -> (r: (u32, u32))
    ensures
        r == mult_spec(a, b),
{
    let sa: i64 = as_signed(a) as i64;
    let sb: i64 = as_signed(b) as i64;
    proof {
        assert(-0x8000_0000 <= sa <= 0x7FFF_FFFF && -0x8000_0000 <= sb <= 0x7FFF_FFFF ==>
            -0x4000_0000_0000_0000 <= sa * sb <= 0x4000_0000_0000_0000) by (nonlinear_arith);
    }
    let p: i64 = sa * sb;
    proof {
        assert(p >= 0 ==> p as u64 == p) by (bit_vector);
        assert(p < 0 ==> p as u64 == p + 0x1_0000_0000_0000_0000) by (bit_vector);
    }
    let pu: u64 = p as u64;
    proof {
        assert(pu & 0xFFFF_FFFF == pu % 0x1_0000_0000) by (bit_vector);
        assert(pu >> 32 == pu / 0x1_0000_0000) by (bit_vector);
        assert(pu % 0x1_0000_0000 < 0x1_0000_0000 && pu / 0x1_0000_0000 < 0x1_0000_0000)
            by (bit_vector);
    }
    (((pu & 0xFFFF_FFFF) as u32), ((pu >> 32) as u32))
}

/// Computes truncating signed division and remainder as words.
fn div_exec(a: u32, b: u32) -> (r: (u32, u32))
    requires
        b != 0,
    ensures
        r == div_spec(a, b),
{
    let sa = as_signed(a);
    let sb = as_signed(b);
    if sa == i32::MIN && sb == -1 {
        (0x8000_0000u32, 0u32)
    } else {
        let ma: u32 = if sa < 0 {
            wrapping_sub(0, a)
        } else {
            a
        };
        let mb: u32 = if sb < 0 {
            wrapping_sub(0, b)
        } else {
            b
        };
        proof {
            assert(ma == abs_of(as_signed_spec(a)));
            assert(mb == abs_of(as_signed_spec(b)));
            assert(mb != 0);
        }
        let q: u32 = ma / mb;
        let r: u32 = ma % mb;
        let qs: u32 = if (sa < 0) != (sb < 0) {
            wrapping_sub(0, q)
        } else {
            q
        };
        let rs: u32 = if sa < 0 {
            wrapping_sub(0, r)
        } else {
            r
        };
        proof {
            let qm = abs_of(as_signed_spec(a)) / abs_of(as_signed_spec(b));
            let rm = abs_of(as_signed_spec(a)) % abs_of(as_signed_spec(b));
            assert(q == qm && r == rm);
            assert(0 <= qm <= 0x8000_0000 && 0 <= rm < 0x8000_0000) by {
                assert(abs_of(as_signed_spec(a)) <= 0x8000_0000);
                assert(qm <= abs_of(as_signed_spec(a)) && 0 <= qm) by (nonlinear_arith)
                    requires
                        abs_of(as_signed_spec(b)) >= 1,
                        abs_of(as_signed_spec(a)) >= 0,
                        qm == abs_of(as_signed_spec(a)) / abs_of(as_signed_spec(b)),
                ;
                assert(0 <= rm < abs_of(as_signed_spec(b))) by (nonlinear_arith)
                    requires
                        abs_of(as_signed_spec(b)) >= 1,
                        abs_of(as_signed_spec(a)) >= 0,
                        rm == abs_of(as_signed_spec(a)) % abs_of(as_signed_spec(b)),
                ;
            }
        }
        (qs, rs)
    }
}

impl Cpu {
    /// Executes one decoded instruction against the core state: the
    /// dispatch table of the interpreter. The program counter does not move
    /// here; the caller retires it.
    #[verifier::rlimit(100)]
    fn exec_instr(&mut self, instr: Instruction) -> (r: Result<Effect, EmuError>)
        requires
            old(self).wf(),
            old(self).pending is None,
            instr.valid(),
        ensures
            final(self).wf(),
            match r {
                Ok(eff) => exec_stage_ok(old(self), final(self), instr, &eff),
                Err(e) => exec_stage_fault(old(self), final(self), instr, e),
            },
    {
        proof {
            reveal(exec_spec);
            reveal(effect_ok);
            reveal(mem_ok);
            reveal(syscall_spec);
            reveal(instr_fault);
            reveal(load_ea);
        }
        let mut eff = Effect::Nothing;
        match instr {
            Instruction::NOP => {
                self.stats.add_cycles(1);
            },
            Instruction::SLL(a) => {
                let v = self.regs.read(a.rt) << a.shamt;
                self.regs.write(a.rd, v);
                self.stats.add_cycles(1);
            },
            Instruction::SRL(a) => {
                let v = self.regs.read(a.rt) >> a.shamt;
                self.regs.write(a.rd, v);
                self.stats.add_cycles(1);
            },
            Instruction::SRA(a) => {
                let v = sra_exec(self.regs.read(a.rt), a.shamt);
                self.regs.write(a.rd, v);
                self.stats.add_cycles(1);
            },
            Instruction::JR(a) => {
                self.branch_to = Some(self.regs.read(a.rs));
                self.stats.add_cycles(1);
            },
            Instruction::JALR(a) => {
                let target = self.regs.read(a.rs);
                let link = wrapping_add(self.pc, 8);
                self.regs.write(a.rd, link);
                self.branch_to = Some(target);
                self.stats.add_cycles(1);
            },
            Instruction::SYSCALL(_) => {
                let v0 = self.regs.read(Register(2));
                if v0 == 1 {
                    eff = Effect::PrintInt(self.regs.read(Register(4)));
                    self.stats.add_cycles(1);
                } else if v0 == 2 {
                    eff = Effect::PrintFloat(self.fregs.read(FloatRegister(12)));
                    self.stats.add_cycles(1);
                } else if v0 == 3 {
                    eff = Effect::PrintDouble(
                        self.fregs.read(FloatRegister(12)),
                        self.fregs.read(FloatRegister(13)),
                    );
                    self.stats.add_cycles(1);
                } else if v0 == 4 {
                    let a0 = self.regs.read(Register(4));
                    let ghost pre_walk = self.mem;
                    match crate::hierarchy::read_c_string(&mut self.mem, a0) {
                        Ok((bs, cyc)) => {
                            self.stats.add_cycles(cyc);
                            proof {
                                assert((a0 & 0xFFFF_FFFC) % 4 == 0 && a0 % 4 < 4) by (bit_vector);
                                crate::hierarchy::lemma_cstring_congruence(
                                    &pre_walk,
                                    &self.mem,
                                    a0 & 0xFFFF_FFFC,
                                    (a0 % 4) as int,
                                );
                            }
                            eff = Effect::PrintString(bs);
                        },
                        Err(e) => {
                            proof {
                                assert((a0 & 0xFFFF_FFFC) % 4 == 0 && a0 % 4 < 4) by (bit_vector);
                                crate::hierarchy::lemma_cstring_congruence(
                                    &pre_walk,
                                    &self.mem,
                                    a0 & 0xFFFF_FFFC,
                                    (a0 % 4) as int,
                                );
                            }
                            return Err(e);
                        },
                    }
                } else if v0 == 5 {
                    self.pending = Some(Pending::Int);
                    eff = Effect::ReadInt;
                    self.stats.add_cycles(1);
                } else if v0 == 6 {
                    self.pending = Some(Pending::Float);
                    eff = Effect::ReadFloat;
                    self.stats.add_cycles(1);
                } else if v0 == 7 {
                    self.pending = Some(Pending::Double);
                    eff = Effect::ReadDouble;
                    self.stats.add_cycles(1);
                } else if v0 == 10 {
                    self.halted = true;
                    self.stats.add_cycles(1);
                    self.stats.finish();
                    eff = Effect::Halted;
                } else if v0 == 11 {
                    eff = Effect::PrintChar((self.regs.read(Register(4)) & 0xFF) as u8);
                    self.stats.add_cycles(1);
                } else if v0 == 500 {
                    eff = Effect::Dump;
                } else {
                    eff = Effect::UnknownSyscall(v0);
                }
            },
            Instruction::MFHI(a) => {
                let v = self.hi;
                self.regs.write(a.rd, v);
                self.stats.add_cycles(1);
            },
            Instruction::MFLO(a) => {
                let v = self.lo;
                self.regs.write(a.rd, v);
                self.stats.add_cycles(1);
            },
            Instruction::MULT(a) => {
                let (lo, hi) = mult_exec(self.regs.read(a.rs), self.regs.read(a.rt));
                self.lo = lo;
                self.hi = hi;
                self.stats.add_cycles(1);
            },
            Instruction::DIV(a) => {
                let divisor = self.regs.read(a.rt);
                if divisor == 0 {
                    return Err(EmuError::DivideByZero);
                }
                let (q, rem) = div_exec(self.regs.read(a.rs), divisor);
                self.lo = q;
                self.hi = rem;
                self.stats.add_cycles(1);
            },
            Instruction::ADD(a) => {
                let v = wrapping_add(self.regs.read(a.rs), self.regs.read(a.rt));
                self.regs.write(a.rd, v);
                self.stats.add_cycles(1);
            },
            Instruction::ADDU(a) => {
                let v = wrapping_add(self.regs.read(a.rs), self.regs.read(a.rt));
                self.regs.write(a.rd, v);
                self.stats.add_cycles(1);
            },
            Instruction::SUB(a) => {
                let v = wrapping_sub(self.regs.read(a.rs), self.regs.read(a.rt));
                self.regs.write(a.rd, v);
                self.stats.add_cycles(1);
            },
            Instruction::SUBU(a) => {
                let v = wrapping_sub(self.regs.read(a.rs), self.regs.read(a.rt));
                self.regs.write(a.rd, v);
                self.stats.add_cycles(1);
            },
            Instruction::AND(a) => {
                let v = self.regs.read(a.rs) & self.regs.read(a.rt);
                self.regs.write(a.rd, v);
                self.stats.add_cycles(1);
            },
            Instruction::OR(a) => {
                let v = self.regs.read(a.rs) | self.regs.read(a.rt);
                self.regs.write(a.rd, v);
                self.stats.add_cycles(1);
            },
            Instruction::XOR(a) => {
                let v = self.regs.read(a.rs) ^ self.regs.read(a.rt);
                self.regs.write(a.rd, v);
                self.stats.add_cycles(1);
            },
            Instruction::SLT(a) => {
                let v: u32 = if as_signed(self.regs.read(a.rs)) < as_signed(
                    self.regs.read(a.rt),
                ) {
                    1
                } else {
                    0
                };
                self.regs.write(a.rd, v);
                self.stats.add_cycles(1);
            },
            Instruction::SLTU(a) => {
                let v: u32 = if self.regs.read(a.rs) < self.regs.read(a.rt) {
                    1
                } else {
                    0
                };
                self.regs.write(a.rd, v);
                self.stats.add_cycles(1);
            },
            Instruction::BGEZ(a) => {
                if self.regs.read(a.rs) & 0x8000_0000 == 0 {
                    self.branch_to = Some(branch_target(self.pc, a.imm));
                }
                self.stats.add_cycles(1);
            },
            Instruction::BAL(a) => {
                let link = wrapping_add(self.pc, 4);
                self.regs.write(Register(31), link);
                self.branch_to = Some(branch_target(self.pc, a.imm));
                self.stats.add_cycles(1);
            },
            Instruction::BEQ(a) => {
                if self.regs.read(a.rs) == self.regs.read(a.rt) {
                    self.branch_to = Some(branch_target(self.pc, a.imm));
                }
                self.stats.add_cycles(1);
            },
            Instruction::BNE(a) => {
                if self.regs.read(a.rs) != self.regs.read(a.rt) {
                    self.branch_to = Some(branch_target(self.pc, a.imm));
                }
                self.stats.add_cycles(1);
            },
            Instruction::BLEZ(a) => {
                if as_signed(self.regs.read(a.rs)) <= 0 {
                    self.branch_to = Some(branch_target(self.pc, a.imm));
                }
                self.stats.add_cycles(1);
            },
            Instruction::ADDI(a) => {
                let v = wrapping_add(self.regs.read(a.rs), sign_extend(a.imm, 16));
                self.regs.write(a.rt, v);
                self.stats.add_cycles(1);
            },
            Instruction::ADDIU(a) => {
                let v = wrapping_add(self.regs.read(a.rs), sign_extend(a.imm, 16));
                self.regs.write(a.rt, v);
                self.stats.add_cycles(1);
            },
            Instruction::SLTI(a) => {
                let v: u32 = if as_signed(self.regs.read(a.rs)) < as_signed(
                    sign_extend(a.imm, 16),
                ) {
                    1
                } else {
                    0
                };
                self.regs.write(a.rt, v);
                self.stats.add_cycles(1);
            },
            Instruction::ANDI(a) => {
                let v = self.regs.read(a.rs) & a.imm;
                self.regs.write(a.rt, v);
                self.stats.add_cycles(1);
            },
            Instruction::ORI(a) => {
                let v = self.regs.read(a.rs) | a.imm;
                self.regs.write(a.rt, v);
                self.stats.add_cycles(1);
            },
            Instruction::LUI(a) => {
                let v = a.imm << 16;
                self.regs.write(a.rt, v);
                self.stats.add_cycles(1);
            },
            Instruction::LB(a) => {
                let ea = wrapping_add(self.regs.read(a.rs), sign_extend(a.imm, 16));
                let (v, cyc) = match self.mem.read_word(ea) {
                    Ok(x) => x,
                    Err(e) => {
                        return Err(e);
                    },
                };
                let b = sign_extend(v, 8);
                self.regs.write(a.rt, b);
                self.stats.add_cycles(cyc);
            },
            Instruction::LW(a) => {
                let ea = wrapping_add(self.regs.read(a.rs), sign_extend(a.imm, 16));
                let (v, cyc) = match self.mem.read_word(ea) {
                    Ok(x) => x,
                    Err(e) => {
                        return Err(e);
                    },
                };
                self.regs.write(a.rt, v);
                self.stats.add_cycles(cyc);
            },
            Instruction::SW(a) => {
                let ea = wrapping_add(self.regs.read(a.rs), sign_extend(a.imm, 16));
                let v = self.regs.read(a.rt);
                let cyc = match self.mem.write_word(ea, v) {
                    Ok(c) => c,
                    Err(e) => {
                        return Err(e);
                    },
                };
                self.stats.add_cycles(cyc);
            },
            Instruction::LWC1(a) => {
                let ea = wrapping_add(self.regs.read(a.rs), sign_extend(a.imm, 16));
                let (v, cyc) = match self.mem.read_word(ea) {
                    Ok(x) => x,
                    Err(e) => {
                        return Err(e);
                    },
                };
                self.fregs.write(FloatRegister(a.rt.0), v);
                self.stats.add_cycles(cyc);
            },
            Instruction::LDC1(a) => {
                if a.rt.0 >= 31 {
                    return Err(EmuError::UnimplementedInstruction);
                }
                let ea = wrapping_add(self.regs.read(a.rs), sign_extend(a.imm, 16));
                let (v1, cyc1) = match self.mem.read_word(ea) {
                    Ok(x) => x,
                    Err(e) => {
                        return Err(e);
                    },
                };
                proof {
                    assert(ea % 4 == 0 ==> crate::bits::wadd(ea, 4) % 4 == 0);
                }
                let (v2, cyc2) = match self.mem.read_word(wrapping_add(ea, 4)) {
                    Ok(x) => x,
                    Err(_) => unreached(),
                };
                self.fregs.write(FloatRegister(a.rt.0), v1);
                self.fregs.write(FloatRegister(a.rt.0 + 1), v2);
                self.stats.add_cycles(cyc1);
                self.stats.add_cycles(cyc2);
            },
            Instruction::SWC1(a) => {
                let ea = wrapping_add(self.regs.read(a.rs), sign_extend(a.imm, 16));
                let v = self.fregs.read(FloatRegister(a.rt.0));
                let cyc = match self.mem.write_word(ea, v) {
                    Ok(c) => c,
                    Err(e) => {
                        return Err(e);
                    },
                };
                self.stats.add_cycles(cyc);
            },
            Instruction::J(t) => {
                self.branch_to = Some(jump_addr(self.pc, t));
                self.stats.add_cycles(1);
            },
            Instruction::JAL(t) => {
                let link = wrapping_add(self.pc, 4);
                self.regs.write(Register(31), link);
                self.branch_to = Some(jump_addr(self.pc, t));
                self.stats.add_cycles(1);
            },
            Instruction::MFC1(a) => {
                let v = self.fregs.read(a.fs);
                self.regs.write(Register(a.ft.0), v);
                self.stats.add_cycles(1);
            },
            Instruction::MTC1(a) => {
                let v = self.regs.read(Register(a.ft.0));
                self.fregs.write(a.fs, v);
                self.stats.add_cycles(1);
            },
            Instruction::MOV_S(a) => {
                let v = self.fregs.read(a.fs);
                self.fregs.write(a.fd, v);
                self.stats.add_cycles(1);
            },
            Instruction::MOV_D(a) => {
                if a.fd.0 >= 31 || a.fs.0 >= 31 {
                    return Err(EmuError::UnimplementedInstruction);
                }
                let v1 = self.fregs.read(a.fs);
                let v2 = self.fregs.read(FloatRegister(a.fs.0 + 1));
                self.fregs.write(a.fd, v1);
                self.fregs.write(FloatRegister(a.fd.0 + 1), v2);
                self.stats.add_cycles(1);
            },
            Instruction::ADD_S(a) => {
                eff = Effect::Fpu(FpuOp::AddS(self.fregs.read(a.fs), self.fregs.read(a.ft)));
                self.pending = Some(Pending::FpuWord(a.fd));
                self.stats.add_cycles(1);
            },
            Instruction::SUB_S(a) => {
                eff = Effect::Fpu(FpuOp::SubS(self.fregs.read(a.fs), self.fregs.read(a.ft)));
                self.pending = Some(Pending::FpuWord(a.fd));
                self.stats.add_cycles(1);
            },
            Instruction::MUL_S(a) => {
                eff = Effect::Fpu(FpuOp::MulS(self.fregs.read(a.fs), self.fregs.read(a.ft)));
                self.pending = Some(Pending::FpuWord(a.fd));
                self.stats.add_cycles(1);
            },
            Instruction::DIV_S(a) => {
                eff = Effect::Fpu(FpuOp::DivS(self.fregs.read(a.fs), self.fregs.read(a.ft)));
                self.pending = Some(Pending::FpuWord(a.fd));
                self.stats.add_cycles(1);
            },
            Instruction::ADD_D(a) => {
                if a.fd.0 >= 31 || a.fs.0 >= 31 || a.ft.0 >= 31 {
                    return Err(EmuError::UnimplementedInstruction);
                }
                eff = Effect::Fpu(
                    FpuOp::AddD(
                        self.fregs.read(a.fs),
                        self.fregs.read(FloatRegister(a.fs.0 + 1)),
                        self.fregs.read(a.ft),
                        self.fregs.read(FloatRegister(a.ft.0 + 1)),
                    ),
                );
                self.pending = Some(Pending::FpuPair(a.fd));
                self.stats.add_cycles(1);
            },
            Instruction::SUB_D(a) => {
                if a.fd.0 >= 31 || a.fs.0 >= 31 || a.ft.0 >= 31 {
                    return Err(EmuError::UnimplementedInstruction);
                }
                eff = Effect::Fpu(
                    FpuOp::SubD(
                        self.fregs.read(a.fs),
                        self.fregs.read(FloatRegister(a.fs.0 + 1)),
                        self.fregs.read(a.ft),
                        self.fregs.read(FloatRegister(a.ft.0 + 1)),
                    ),
                );
                self.pending = Some(Pending::FpuPair(a.fd));
                self.stats.add_cycles(1);
            },
            Instruction::MUL_D(a) => {
                if a.fd.0 >= 31 || a.fs.0 >= 31 || a.ft.0 >= 31 {
                    return Err(EmuError::UnimplementedInstruction);
                }
                eff = Effect::Fpu(
                    FpuOp::MulD(
                        self.fregs.read(a.fs),
                        self.fregs.read(FloatRegister(a.fs.0 + 1)),
                        self.fregs.read(a.ft),
                        self.fregs.read(FloatRegister(a.ft.0 + 1)),
                    ),
                );
                self.pending = Some(Pending::FpuPair(a.fd));
                self.stats.add_cycles(1);
            },
            Instruction::DIV_D(a) => {
                if a.fd.0 >= 31 || a.fs.0 >= 31 || a.ft.0 >= 31 {
                    return Err(EmuError::UnimplementedInstruction);
                }
                eff = Effect::Fpu(
                    FpuOp::DivD(
                        self.fregs.read(a.fs),
                        self.fregs.read(FloatRegister(a.fs.0 + 1)),
                        self.fregs.read(a.ft),
                        self.fregs.read(FloatRegister(a.ft.0 + 1)),
                    ),
                );
                self.pending = Some(Pending::FpuPair(a.fd));
                self.stats.add_cycles(1);
            },
            Instruction::CVT_D_W(a) => {
                if a.fd.0 >= 31 {
                    return Err(EmuError::UnimplementedInstruction);
                }
                eff = Effect::Fpu(FpuOp::CvtDW(self.fregs.read(a.fs)));
                self.pending = Some(Pending::FpuPair(a.fd));
                self.stats.add_cycles(1);
            },
            Instruction::CVT_S_D(a) => {
                if a.fs.0 >= 31 {
                    return Err(EmuError::UnimplementedInstruction);
                }
                eff = Effect::Fpu(
                    FpuOp::CvtSD(self.fregs.read(a.fs), self.fregs.read(FloatRegister(a.fs.0 + 1))),
                );
                self.pending = Some(Pending::FpuWord(a.fd));
                self.stats.add_cycles(1);
            },
            Instruction::C_LT_S(a) => {
                eff = Effect::Fpu(FpuOp::CmpLtS(self.fregs.read(a.fs), self.fregs.read(a.ft)));
                self.pending = Some(Pending::FpuFlag);
                self.stats.add_cycles(1);
            },
            Instruction::BC1T(a) => {
                if self.float_cc {
                    self.branch_to = Some(branch_target(self.pc, a.imm));
                }
                self.stats.add_cycles(1);
            },
            Instruction::BC1F(a) => {
                if !self.float_cc {
                    self.branch_to = Some(branch_target(self.pc, a.imm));
                }
                self.stats.add_cycles(1);
            },
        }
        Ok(eff)
    }

    /// Executes the instruction at the program counter: fetch, decode,
    /// dispatch, and retire the program counter by the branch-delay rule.
    /// Console and floating-point work is handed back as an [`Effect`].
    #[verifier::rlimit(100)]
    pub fn cycle(&mut self) -> (r: Result<Effect, EmuError>)
        requires
            old(self).wf(),
            old(self).pending is None,
        ensures
            final(self).wf(),
            match r {
                Ok(eff) => cycle_ok(old(self), final(self), &eff),
                Err(e) => cycle_fault(old(self), final(self), e),
            },
    {
        match self.branch_to {
            Some(t) => {
                if t != self.pc {
                    self.in_delay_slot = true;
                }
            },
            None => {},
        }
        let (word, fetch_cycles) = match self.mem.read_instruction(self.pc) {
            Ok(x) => x,
            Err(e) => {
                return Err(e);
            },
        };
        let instr = match decode(word) {
            Ok(i) => i,
            Err(e) => {
                return Err(e);
            },
        };
        self.stats.add_instr(instr.kind());
        self.stats.add_cycles(fetch_cycles);
        let ghost cmid = *self;
        let eff = match self.exec_instr(instr) {
            Ok(eff) => eff,
            Err(e) => {
                proof {
                    lemma_core_congruence(&cmid, old(self), instr, 0, 0);
                }
                return Err(e);
            },
        };
        let ghost cex = *self;
        proof {
            let lv1 = self.mem.dview(load_ea(&cmid, instr));
            let lv2 = self.mem.dview(wadd(load_ea(&cmid, instr), 4));
            lemma_core_congruence(&cmid, old(self), instr, lv1, lv2);
        }
        let take_branch = self.in_delay_slot && match self.branch_to {
            Some(_) => true,
            None => false,
        };
        if take_branch {
            let t = match self.branch_to {
                Some(t) => t,
                None => unreached(),
            };
            self.pc = t;
            self.in_delay_slot = false;
            self.branch_to = None;
        } else {
            self.pc = wrapping_add(self.pc, 4);
        }
        proof {
            if !(old(self).mem.levels is Split) {
                assert forall|x: u32| x % 4 == 0 implies #[trigger] old(self).mem.dview(x)
                    == cmid.mem.dview(x) by {}
            }
            lemma_mem_ok_chain(&cmid, &cex, old(self), self, instr);
            lemma_effect_mem_only(old(self), &cex, self, instr, &eff);
        }
        Ok(eff)
    }

    /// Answers a pending console integer read: the value lands in `$v0`.
    pub fn provide_int(&mut self, v: u32)
        requires
            old(self).wf(),
            old(self).pending == Some(Pending::Int),
        ensures
            final(self).wf(),
            final(self).pending is None,
            final(self).regs.vals@ == upd_reg(old(self).regs.vals@, 2, v),
            final(self).fregs == old(self).fregs,
            final(self).mem == old(self).mem,
            final(self).pc == old(self).pc,
            final(self).halted == old(self).halted,
    {
        self.regs.write(Register(2), v);
        self.pending = None;
    }

    /// Answers a pending console single read: the bits land in `$f0`.
    pub fn provide_float(&mut self, bits: u32)
        requires
            old(self).wf(),
            old(self).pending == Some(Pending::Float),
        ensures
            final(self).wf(),
            final(self).pending is None,
            final(self).fregs.vals@ == old(self).fregs.vals@.update(0, bits),
            final(self).regs == old(self).regs,
            final(self).mem == old(self).mem,
            final(self).pc == old(self).pc,
    {
        self.fregs.write(FloatRegister(0), bits);
        self.pending = None;
    }

    /// Answers a pending console double read: the pair lands in
    /// `($f0, $f1)`.
    pub fn provide_double(&mut self, lo: u32, hi: u32)
        requires
            old(self).wf(),
            old(self).pending == Some(Pending::Double),
        ensures
            final(self).wf(),
            final(self).pending is None,
            final(self).fregs.vals@ == old(self).fregs.vals@.update(0, lo).update(1, hi),
            final(self).regs == old(self).regs,
            final(self).mem == old(self).mem,
            final(self).pc == old(self).pc,
    {
        self.fregs.write(FloatRegister(0), lo);
        self.fregs.write(FloatRegister(1), hi);
        self.pending = None;
    }

    /// Answers a pending single-word floating-point result.
    pub fn provide_fpu_word(&mut self, bits: u32)
        requires
            old(self).wf(),
            match old(self).pending {
                Some(Pending::FpuWord(fd)) => fd.0 < 32,
                _ => false,
            },
        ensures
            final(self).wf(),
            final(self).pending is None,
            match old(self).pending {
                Some(Pending::FpuWord(fd)) => final(self).fregs.vals@ == old(
                    self,
                ).fregs.vals@.update(fd.0 as int, bits),
                _ => false,
            },
            final(self).regs == old(self).regs,
            final(self).mem == old(self).mem,
            final(self).pc == old(self).pc,
    {
        let fd = match self.pending {
            Some(Pending::FpuWord(fd)) => fd,
            _ => unreached(),
        };
        self.fregs.write(fd, bits);
        self.pending = None;
    }

    /// Answers a pending double floating-point result, as a low/high pair.
    pub fn provide_fpu_pair(&mut self, lo: u32, hi: u32)
        requires
            old(self).wf(),
            match old(self).pending {
                Some(Pending::FpuPair(fd)) => fd.0 < 31,
                _ => false,
            },
        ensures
            final(self).wf(),
            final(self).pending is None,
            match old(self).pending {
                Some(Pending::FpuPair(fd)) => final(self).fregs.vals@ == old(
                    self,
                ).fregs.vals@.update(fd.0 as int, lo).update(fd.0 as int + 1, hi),
                _ => false,
            },
            final(self).regs == old(self).regs,
            final(self).mem == old(self).mem,
            final(self).pc == old(self).pc,
    {
        let fd = match self.pending {
            Some(Pending::FpuPair(fd)) => fd,
            _ => unreached(),
        };
        self.fregs.write(fd, lo);
        self.fregs.write(FloatRegister(fd.0 + 1), hi);
        self.pending = None;
    }

    /// Answers a pending floating-point comparison: the condition code.
    pub fn provide_fpu_flag(&mut self, flag: bool)
        requires
            old(self).wf(),
            old(self).pending == Some(Pending::FpuFlag),
        ensures
            final(self).wf(),
            final(self).pending is None,
            final(self).float_cc == flag,
            final(self).fregs == old(self).fregs,
            final(self).regs == old(self).regs,
            final(self).mem == old(self).mem,
            final(self).pc == old(self).pc,
    {
        self.float_cc = flag;
        self.pending = None;
    }
}

} // verus!
