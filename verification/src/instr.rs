//! The instruction model: register indices, operand layouts, the decoder
//! from 32-bit words to tagged variants, and the encoder back.

use vstd::prelude::*;
use crate::err::EmuError;

verus! {

/// An index into the integer register file, in `[0, 31]`.
#[derive(Clone, Copy, Debug, PartialEq, Eq, Structural)]
pub struct Register(pub u32);

/// An index into the floating-point register file, in `[0, 31]`.
#[derive(Clone, Copy, Debug, PartialEq, Eq, Structural)]
pub struct FloatRegister(pub u32);

/// Operands of an R-type instruction.
#[derive(Clone, Copy, Debug, PartialEq, Eq, Structural)]
pub struct RArgs {
    pub rs: Register,
    pub rt: Register,
    pub rd: Register,
    pub shamt: u32,
}

/// Operands of an I-type instruction; `imm` is the raw 16-bit field.
#[derive(Clone, Copy, Debug, PartialEq, Eq, Structural)]
pub struct IArgs {
    pub rs: Register,
    pub rt: Register,
    pub imm: u32,
}

/// Operands of a floating-point R-style instruction.
#[derive(Clone, Copy, Debug, PartialEq, Eq, Structural)]
pub struct FRArgs {
    pub ft: FloatRegister,
    pub fs: FloatRegister,
    pub fd: FloatRegister,
    pub funct: u32,
}

/// Operands of a floating-point I-style instruction.
#[derive(Clone, Copy, Debug, PartialEq, Eq, Structural)]
pub struct FIArgs {
    pub ft: FloatRegister,
    pub imm: u32,
}

/// The five encoding families.
#[derive(Clone, Copy, Debug, PartialEq, Eq, Structural)]
pub enum Kind {
    R,
    I,
    J,
    FR,
    FI,
}

/// A decoded instruction, named by its architectural mnemonic.
#[allow(non_camel_case_types)]
#[derive(Clone, Copy, Debug, PartialEq, Eq, Structural)]
pub enum Instruction {
    NOP,
    // R-type (primary opcode 0)
    SLL(RArgs),
    SRL(RArgs),
    SRA(RArgs),
    JR(RArgs),
    JALR(RArgs),
    SYSCALL(RArgs),
    MFHI(RArgs),
    MFLO(RArgs),
    MULT(RArgs),
    DIV(RArgs),
    ADD(RArgs),
    ADDU(RArgs),
    SUB(RArgs),
    SUBU(RArgs),
    AND(RArgs),
    OR(RArgs),
    XOR(RArgs),
    SLT(RArgs),
    SLTU(RArgs),
    // I-type
    BGEZ(IArgs),
    BAL(IArgs),
    BEQ(IArgs),
    BNE(IArgs),
    BLEZ(IArgs),
    ADDI(IArgs),
    ADDIU(IArgs),
    SLTI(IArgs),
    ANDI(IArgs),
    ORI(IArgs),
    LUI(IArgs),
    LB(IArgs),
    LW(IArgs),
    SW(IArgs),
    LWC1(IArgs),
    LDC1(IArgs),
    SWC1(IArgs),
    // J-type
    J(u32),
    JAL(u32),
    // Floating-point R-style (primary opcode 17)
    MFC1(FRArgs),
    MTC1(FRArgs),
    MOV_S(FRArgs),
    ADD_S(FRArgs),
    SUB_S(FRArgs),
    MUL_S(FRArgs),
    DIV_S(FRArgs),
    C_LT_S(FRArgs),
    MOV_D(FRArgs),
    ADD_D(FRArgs),
    SUB_D(FRArgs),
    MUL_D(FRArgs),
    DIV_D(FRArgs),
    CVT_S_D(FRArgs),
    CVT_D_W(FRArgs),
    // Floating-point I-style
    BC1T(FIArgs),
    BC1F(FIArgs),
}

impl RArgs {
    pub open spec fn valid(self) -> bool {
        self.rs.0 < 32 && self.rt.0 < 32 && self.rd.0 < 32 && self.shamt < 32
    }
}

impl IArgs {
    pub open spec fn valid(self) -> bool {
        self.rs.0 < 32 && self.rt.0 < 32 && self.imm < 0x1_0000
    }
}

impl FRArgs {
    pub open spec fn valid(self) -> bool {
        self.ft.0 < 32 && self.fs.0 < 32 && self.fd.0 < 32 && self.funct < 64
    }
}

impl FIArgs {
    pub open spec fn valid(self) -> bool {
        self.ft.0 < 32 && self.imm < 0x1_0000
    }
}

impl Instruction {
    /// Well-formedness: every field fits its bit slot, floating-point
    /// variants carry their canonical function and selector fields, and the
    /// shift encoded as the all-zero word is spelled `NOP`.
    pub open spec fn valid(self) -> bool {
        match self {
            Instruction::NOP => true,
            Instruction::SLL(a) => a.valid() && !(a.rs.0 == 0 && a.rt.0 == 0 && a.rd.0 == 0
                && a.shamt == 0),
            Instruction::SRL(a) => a.valid(),
            Instruction::SRA(a) => a.valid(),
            Instruction::JR(a) => a.valid(),
            Instruction::JALR(a) => a.valid(),
            Instruction::SYSCALL(a) => a.valid(),
            Instruction::MFHI(a) => a.valid(),
            Instruction::MFLO(a) => a.valid(),
            Instruction::MULT(a) => a.valid(),
            Instruction::DIV(a) => a.valid(),
            Instruction::ADD(a) => a.valid(),
            Instruction::ADDU(a) => a.valid(),
            Instruction::SUB(a) => a.valid(),
            Instruction::SUBU(a) => a.valid(),
            Instruction::AND(a) => a.valid(),
            Instruction::OR(a) => a.valid(),
            Instruction::XOR(a) => a.valid(),
            Instruction::SLT(a) => a.valid(),
            Instruction::SLTU(a) => a.valid(),
            Instruction::BGEZ(a) => a.valid() && a.rt.0 == 1,
            Instruction::BAL(a) => a.valid() && a.rt.0 == 17,
            Instruction::BEQ(a) => a.valid(),
            Instruction::BNE(a) => a.valid(),
            Instruction::BLEZ(a) => a.valid(),
            Instruction::ADDI(a) => a.valid(),
            Instruction::ADDIU(a) => a.valid(),
            Instruction::SLTI(a) => a.valid(),
            Instruction::ANDI(a) => a.valid(),
            Instruction::ORI(a) => a.valid(),
            Instruction::LUI(a) => a.valid(),
            Instruction::LB(a) => a.valid(),
            Instruction::LW(a) => a.valid(),
            Instruction::SW(a) => a.valid(),
            Instruction::LWC1(a) => a.valid(),
            Instruction::LDC1(a) => a.valid(),
            Instruction::SWC1(a) => a.valid(),
            Instruction::J(t) => t < 0x400_0000,
            Instruction::JAL(t) => t < 0x400_0000,
            Instruction::MFC1(a) => a.valid() && a.funct == 0,
            Instruction::MTC1(a) => a.valid() && a.funct == 0,
            Instruction::MOV_S(a) => a.valid() && a.funct == 6,
            Instruction::ADD_S(a) => a.valid() && a.funct == 0,
            Instruction::SUB_S(a) => a.valid() && a.funct == 1,
            Instruction::MUL_S(a) => a.valid() && a.funct == 2,
            Instruction::DIV_S(a) => a.valid() && a.funct == 3,
            Instruction::C_LT_S(a) => a.valid() && a.funct == 60,
            Instruction::MOV_D(a) => a.valid() && a.funct == 6,
            Instruction::ADD_D(a) => a.valid() && a.funct == 0,
            Instruction::SUB_D(a) => a.valid() && a.funct == 1,
            Instruction::MUL_D(a) => a.valid() && a.funct == 2,
            Instruction::DIV_D(a) => a.valid() && a.funct == 3,
            Instruction::CVT_S_D(a) => a.valid() && a.funct == 32,
            Instruction::CVT_D_W(a) => a.valid() && a.funct == 33,
            Instruction::BC1T(a) => a.valid() && a.ft.0 == 1,
            Instruction::BC1F(a) => a.valid() && a.ft.0 == 0,
        }
    }

    /// The encoding family the variant belongs to. `NOP` counts as R-type.
    pub fn kind(&self) -> (k: Kind)
        ensures
            k == self.kind_spec(),
    {
        match self {
            Instruction::NOP => Kind::R,
            Instruction::SLL(_) | Instruction::SRL(_) | Instruction::SRA(_) | Instruction::JR(_)
                | Instruction::JALR(_) | Instruction::SYSCALL(_) | Instruction::MFHI(_)
                | Instruction::MFLO(_) | Instruction::MULT(_) | Instruction::DIV(_)
                | Instruction::ADD(_) | Instruction::ADDU(_) | Instruction::SUB(_)
                | Instruction::SUBU(_) | Instruction::AND(_) | Instruction::OR(_)
                | Instruction::XOR(_) | Instruction::SLT(_) | Instruction::SLTU(_) => Kind::R,
            Instruction::J(_) | Instruction::JAL(_) => Kind::J,
            Instruction::MFC1(_) | Instruction::MTC1(_) | Instruction::MOV_S(_)
                | Instruction::ADD_S(_) | Instruction::SUB_S(_) | Instruction::MUL_S(_)
                | Instruction::DIV_S(_) | Instruction::C_LT_S(_) | Instruction::MOV_D(_)
                | Instruction::ADD_D(_) | Instruction::SUB_D(_) | Instruction::MUL_D(_)
                | Instruction::DIV_D(_) | Instruction::CVT_S_D(_) | Instruction::CVT_D_W(_)
                => Kind::FR,
            Instruction::BC1T(_) | Instruction::BC1F(_) => Kind::FI,
            _ => Kind::I,
        }
    }

    /// Spec twin of [`Instruction::kind`].
    pub open spec fn kind_spec(self) -> Kind {
        match self {
            Instruction::NOP => Kind::R,
            Instruction::SLL(_) | Instruction::SRL(_) | Instruction::SRA(_) | Instruction::JR(_)
                | Instruction::JALR(_) | Instruction::SYSCALL(_) | Instruction::MFHI(_)
                | Instruction::MFLO(_) | Instruction::MULT(_) | Instruction::DIV(_)
                | Instruction::ADD(_) | Instruction::ADDU(_) | Instruction::SUB(_)
                | Instruction::SUBU(_) | Instruction::AND(_) | Instruction::OR(_)
                | Instruction::XOR(_) | Instruction::SLT(_) | Instruction::SLTU(_) => Kind::R,
            Instruction::J(_) | Instruction::JAL(_) => Kind::J,
            Instruction::MFC1(_) | Instruction::MTC1(_) | Instruction::MOV_S(_)
                | Instruction::ADD_S(_) | Instruction::SUB_S(_) | Instruction::MUL_S(_)
                | Instruction::DIV_S(_) | Instruction::C_LT_S(_) | Instruction::MOV_D(_)
                | Instruction::ADD_D(_) | Instruction::SUB_D(_) | Instruction::MUL_D(_)
                | Instruction::DIV_D(_) | Instruction::CVT_S_D(_) | Instruction::CVT_D_W(_)
                => Kind::FR,
            Instruction::BC1T(_) | Instruction::BC1F(_) => Kind::FI,
            _ => Kind::I,
        }
    }
}

/// The decoding function, at the specification level: `None` stands for an
/// unknown encoding.
pub open spec fn decode_spec(w: u32) -> Option<Instruction> {
    if w == 0 {
        Some(Instruction::NOP)
    } else {
        let op = w >> 26;
        let rs = Register((w >> 21) & 31);
        let rt = Register((w >> 16) & 31);
        let rd = Register((w >> 11) & 31);
        let shamt = (w >> 6) & 31;
        let funct = w & 63;
        let imm = w & 0xFFFF;
        let ra = RArgs { rs, rt, rd, shamt };
        let ia = IArgs { rs, rt, imm };
        let fa = FRArgs {
            ft: FloatRegister((w >> 16) & 31),
            fs: FloatRegister((w >> 11) & 31),
            fd: FloatRegister((w >> 6) & 31),
            funct,
        };
        let fia = FIArgs { ft: FloatRegister((w >> 16) & 31), imm };
        if op == 0 {
            if funct == 0 {
                Some(Instruction::SLL(ra))
            } else if funct == 2 {
                Some(Instruction::SRL(ra))
            } else if funct == 3 {
                Some(Instruction::SRA(ra))
            } else if funct == 8 {
                Some(Instruction::JR(ra))
            } else if funct == 9 {
                Some(Instruction::JALR(ra))
            } else if funct == 12 {
                Some(Instruction::SYSCALL(ra))
            } else if funct == 16 {
                Some(Instruction::MFHI(ra))
            } else if funct == 18 {
                Some(Instruction::MFLO(ra))
            } else if funct == 24 {
                Some(Instruction::MULT(ra))
            } else if funct == 26 {
                Some(Instruction::DIV(ra))
            } else if funct == 32 {
                Some(Instruction::ADD(ra))
            } else if funct == 33 {
                Some(Instruction::ADDU(ra))
            } else if funct == 34 {
                Some(Instruction::SUB(ra))
            } else if funct == 35 {
                Some(Instruction::SUBU(ra))
            } else if funct == 36 {
                Some(Instruction::AND(ra))
            } else if funct == 37 {
                Some(Instruction::OR(ra))
            } else if funct == 38 {
                Some(Instruction::XOR(ra))
            } else if funct == 42 {
                Some(Instruction::SLT(ra))
            } else if funct == 43 {
                Some(Instruction::SLTU(ra))
            } else {
                None
            }
        } else if op == 1 {
            if (w >> 16) & 31 == 1 {
                Some(Instruction::BGEZ(ia))
            } else if (w >> 16) & 31 == 17 {
                Some(Instruction::BAL(ia))
            } else {
                None
            }
        } else if op == 2 {
            Some(Instruction::J(w & 0x3FF_FFFF))
        } else if op == 3 {
            Some(Instruction::JAL(w & 0x3FF_FFFF))
        } else if op == 17 {
            let fmt = (w >> 21) & 31;
            if fmt == 0 && funct == 0 {
                Some(Instruction::MFC1(fa))
            } else if fmt == 4 && funct == 0 {
                Some(Instruction::MTC1(fa))
            } else if fmt == 8 && (w >> 16) & 31 == 1 {
                Some(Instruction::BC1T(fia))
            } else if fmt == 8 && (w >> 16) & 31 == 0 {
                Some(Instruction::BC1F(fia))
            } else if fmt == 16 {
                if funct == 0 {
                    Some(Instruction::ADD_S(fa))
                } else if funct == 1 {
                    Some(Instruction::SUB_S(fa))
                } else if funct == 2 {
                    Some(Instruction::MUL_S(fa))
                } else if funct == 3 {
                    Some(Instruction::DIV_S(fa))
                } else if funct == 6 {
                    Some(Instruction::MOV_S(fa))
                } else if funct == 60 {
                    Some(Instruction::C_LT_S(fa))
                } else {
                    None
                }
            } else if fmt == 17 {
                if funct == 0 {
                    Some(Instruction::ADD_D(fa))
                } else if funct == 1 {
                    Some(Instruction::SUB_D(fa))
                } else if funct == 2 {
                    Some(Instruction::MUL_D(fa))
                } else if funct == 3 {
                    Some(Instruction::DIV_D(fa))
                } else if funct == 6 {
                    Some(Instruction::MOV_D(fa))
                } else if funct == 32 {
                    Some(Instruction::CVT_S_D(fa))
                } else {
                    None
                }
            } else if fmt == 20 && funct == 33 {
                Some(Instruction::CVT_D_W(fa))
            } else {
                None
            }
        } else if op == 4 {
            Some(Instruction::BEQ(ia))
        } else if op == 5 {
            Some(Instruction::BNE(ia))
        } else if op == 6 {
            Some(Instruction::BLEZ(ia))
        } else if op == 8 {
            Some(Instruction::ADDI(ia))
        } else if op == 9 {
            Some(Instruction::ADDIU(ia))
        } else if op == 10 {
            Some(Instruction::SLTI(ia))
        } else if op == 12 {
            Some(Instruction::ANDI(ia))
        } else if op == 13 {
            Some(Instruction::ORI(ia))
        } else if op == 15 {
            Some(Instruction::LUI(ia))
        } else if op == 32 {
            Some(Instruction::LB(ia))
        } else if op == 35 {
            Some(Instruction::LW(ia))
        } else if op == 43 {
            Some(Instruction::SW(ia))
        } else if op == 49 {
            Some(Instruction::LWC1(ia))
        } else if op == 53 {
            Some(Instruction::LDC1(ia))
        } else if op == 57 {
            Some(Instruction::SWC1(ia))
        } else {
            None
        }
    }
}

/// Every field a decoder extracts fits its slot.
proof fn lemma_field_bounds(w: u32)
    by (bit_vector)
    ensures
        (w >> 26) < 64,
        ((w >> 21) & 31) < 32,
        ((w >> 16) & 31) < 32,
        ((w >> 11) & 31) < 32,
        ((w >> 6) & 31) < 32,
        (w & 63) < 64,
        (w & 0xFFFF) < 0x1_0000,
        (w & 0x3FF_FFFF) < 0x400_0000,
{
}

/// Decodes a 32-bit word. An all-zero word is `NOP`; otherwise the primary
/// opcode (bits 26 to 31) and, where applicable, the function, format or
/// selector field choose the variant. Unknown encodings yield the decode
/// error carrying the opcode and function fields.
pub fn decode(w: u32) -> (r: Result<Instruction, EmuError>)
    ensures
        match r {
            Ok(i) => decode_spec(w) == Some(i) && i.valid(),
            Err(e) => decode_spec(w) is None && e == (EmuError::Decode {
                opcode: w >> 26,
                funct: w & 63,
            }),
        },
{
    proof {
        lemma_field_bounds(w);
        assert(w != 0 && w >> 26 == 0 && w & 63 == 0 ==> !((w >> 21) & 31 == 0 && (w >> 16) & 31
            == 0 && (w >> 11) & 31 == 0 && (w >> 6) & 31 == 0)) by (bit_vector);
    }
    if w == 0 {
        return Ok(Instruction::NOP);
    }
    let op = w >> 26;
    let rs = Register((w >> 21) & 31);
    let rt = Register((w >> 16) & 31);
    let rd = Register((w >> 11) & 31);
    let shamt = (w >> 6) & 31;
    let funct = w & 63;
    let imm = w & 0xFFFF;
    let ra = RArgs { rs, rt, rd, shamt };
    let ia = IArgs { rs, rt, imm };
    let fa = FRArgs {
        ft: FloatRegister((w >> 16) & 31),
        fs: FloatRegister((w >> 11) & 31),
        fd: FloatRegister((w >> 6) & 31),
        funct,
    };
    let fia = FIArgs { ft: FloatRegister((w >> 16) & 31), imm };
    let unknown = EmuError::Decode { opcode: op, funct };
    match op {
        0 => match funct {
            0 => Ok(Instruction::SLL(ra)),
            2 => Ok(Instruction::SRL(ra)),
            3 => Ok(Instruction::SRA(ra)),
            8 => Ok(Instruction::JR(ra)),
            9 => Ok(Instruction::JALR(ra)),
            12 => Ok(Instruction::SYSCALL(ra)),
            16 => Ok(Instruction::MFHI(ra)),
            18 => Ok(Instruction::MFLO(ra)),
            24 => Ok(Instruction::MULT(ra)),
            26 => Ok(Instruction::DIV(ra)),
            32 => Ok(Instruction::ADD(ra)),
            33 => Ok(Instruction::ADDU(ra)),
            34 => Ok(Instruction::SUB(ra)),
            35 => Ok(Instruction::SUBU(ra)),
            36 => Ok(Instruction::AND(ra)),
            37 => Ok(Instruction::OR(ra)),
            38 => Ok(Instruction::XOR(ra)),
            42 => Ok(Instruction::SLT(ra)),
            43 => Ok(Instruction::SLTU(ra)),
            _ => Err(unknown),
        },
        1 => match (w >> 16) & 31 {
            1 => Ok(Instruction::BGEZ(ia)),
            17 => Ok(Instruction::BAL(ia)),
            _ => Err(unknown),
        },
        2 => Ok(Instruction::J(w & 0x3FF_FFFF)),
        3 => Ok(Instruction::JAL(w & 0x3FF_FFFF)),
        17 => {
            let fmt = (w >> 21) & 31;
            match fmt {
                0 if funct == 0 => Ok(Instruction::MFC1(fa)),
                4 if funct == 0 => Ok(Instruction::MTC1(fa)),
                8 if (w >> 16) & 31 == 1 => Ok(Instruction::BC1T(fia)),
                8 if (w >> 16) & 31 == 0 => Ok(Instruction::BC1F(fia)),
                16 => match funct {
                    0 => Ok(Instruction::ADD_S(fa)),
                    1 => Ok(Instruction::SUB_S(fa)),
                    2 => Ok(Instruction::MUL_S(fa)),
                    3 => Ok(Instruction::DIV_S(fa)),
                    6 => Ok(Instruction::MOV_S(fa)),
                    60 => Ok(Instruction::C_LT_S(fa)),
                    _ => Err(unknown),
                },
                17 => match funct {
                    0 => Ok(Instruction::ADD_D(fa)),
                    1 => Ok(Instruction::SUB_D(fa)),
                    2 => Ok(Instruction::MUL_D(fa)),
                    3 => Ok(Instruction::DIV_D(fa)),
                    6 => Ok(Instruction::MOV_D(fa)),
                    32 => Ok(Instruction::CVT_S_D(fa)),
                    _ => Err(unknown),
                },
                20 if funct == 33 => Ok(Instruction::CVT_D_W(fa)),
                _ => Err(unknown),
            }
        },
        4 => Ok(Instruction::BEQ(ia)),
        5 => Ok(Instruction::BNE(ia)),
        6 => Ok(Instruction::BLEZ(ia)),
        8 => Ok(Instruction::ADDI(ia)),
        9 => Ok(Instruction::ADDIU(ia)),
        10 => Ok(Instruction::SLTI(ia)),
        12 => Ok(Instruction::ANDI(ia)),
        13 => Ok(Instruction::ORI(ia)),
        15 => Ok(Instruction::LUI(ia)),
        32 => Ok(Instruction::LB(ia)),
        35 => Ok(Instruction::LW(ia)),
        43 => Ok(Instruction::SW(ia)),
        49 => Ok(Instruction::LWC1(ia)),
        53 => Ok(Instruction::LDC1(ia)),
        57 => Ok(Instruction::SWC1(ia)),
        _ => Err(unknown),
    }
}

/// Assembling an R-shaped word puts every field back where the decoder
/// reads it.
proof fn lemma_encode_r(op: u32, rs: u32, rt: u32, rd: u32, shamt: u32, funct: u32)
    by (bit_vector)
    requires
        op < 64,
        rs < 32,
        rt < 32,
        rd < 32,
        shamt < 32,
        funct < 64,
    ensures
        ({
            let w = (op << 26) | (rs << 21) | (rt << 16) | (rd << 11) | (shamt << 6) | funct;
            w >> 26 == op && (w >> 21) & 31 == rs && (w >> 16) & 31 == rt && (w >> 11) & 31 == rd
                && (w >> 6) & 31 == shamt && (w & 63) == funct && (w & 0xFFFF) == ((rd << 11) | (
            shamt << 6) | funct) && (w == 0 <==> (op == 0 && rs == 0 && rt == 0 && rd == 0 && shamt
                == 0 && funct == 0))
        }),
{
}

/// Assembling an I-shaped word puts every field back where the decoder
/// reads it.
proof fn lemma_encode_i(op: u32, rs: u32, rt: u32, imm: u32)
    by (bit_vector)
    requires
        op < 64,
        rs < 32,
        rt < 32,
        imm < 0x1_0000,
    ensures
        ({
            let w = (op << 26) | (rs << 21) | (rt << 16) | imm;
            w >> 26 == op && (w >> 21) & 31 == rs && (w >> 16) & 31 == rt && (w & 0xFFFF) == imm
                && (w & 63) == (imm & 63) && (op != 0 ==> w != 0)
        }),
{
}

/// Assembling a J-shaped word puts both fields back where the decoder
/// reads them.
proof fn lemma_encode_j(op: u32, target: u32)
    by (bit_vector)
    requires
        op < 64,
        target < 0x400_0000,
    ensures
        ({
            let w = (op << 26) | target;
            w >> 26 == op && (w & 0x3FF_FFFF) == target && (op != 0 ==> w != 0)
        }),
{
}

impl Instruction {
    /// Encodes the instruction back into its 32-bit word. For every
    /// well-formed instruction the decoder recovers it exactly: the
    /// instruction model is lossless.
    pub fn encode(&self) -> (w: u32)
        requires
            self.valid(),
        ensures
            decode_spec(w) == Some(*self),
    {
        match *self {
            Instruction::NOP => 0,
            Instruction::SLL(a) => enc_r(a, 0),
            Instruction::SRL(a) => enc_r(a, 2),
            Instruction::SRA(a) => enc_r(a, 3),
            Instruction::JR(a) => enc_r(a, 8),
            Instruction::JALR(a) => enc_r(a, 9),
            Instruction::SYSCALL(a) => enc_r(a, 12),
            Instruction::MFHI(a) => enc_r(a, 16),
            Instruction::MFLO(a) => enc_r(a, 18),
            Instruction::MULT(a) => enc_r(a, 24),
            Instruction::DIV(a) => enc_r(a, 26),
            Instruction::ADD(a) => enc_r(a, 32),
            Instruction::ADDU(a) => enc_r(a, 33),
            Instruction::SUB(a) => enc_r(a, 34),
            Instruction::SUBU(a) => enc_r(a, 35),
            Instruction::AND(a) => enc_r(a, 36),
            Instruction::OR(a) => enc_r(a, 37),
            Instruction::XOR(a) => enc_r(a, 38),
            Instruction::SLT(a) => enc_r(a, 42),
            Instruction::SLTU(a) => enc_r(a, 43),
            Instruction::BGEZ(a) => enc_i(1, a.rs.0, 1, a.imm),
            Instruction::BAL(a) => enc_i(1, a.rs.0, 17, a.imm),
            Instruction::BEQ(a) => enc_i(4, a.rs.0, a.rt.0, a.imm),
            Instruction::BNE(a) => enc_i(5, a.rs.0, a.rt.0, a.imm),
            Instruction::BLEZ(a) => enc_i(6, a.rs.0, a.rt.0, a.imm),
            Instruction::ADDI(a) => enc_i(8, a.rs.0, a.rt.0, a.imm),
            Instruction::ADDIU(a) => enc_i(9, a.rs.0, a.rt.0, a.imm),
            Instruction::SLTI(a) => enc_i(10, a.rs.0, a.rt.0, a.imm),
            Instruction::ANDI(a) => enc_i(12, a.rs.0, a.rt.0, a.imm),
            Instruction::ORI(a) => enc_i(13, a.rs.0, a.rt.0, a.imm),
            Instruction::LUI(a) => enc_i(15, a.rs.0, a.rt.0, a.imm),
            Instruction::LB(a) => enc_i(32, a.rs.0, a.rt.0, a.imm),
            Instruction::LW(a) => enc_i(35, a.rs.0, a.rt.0, a.imm),
            Instruction::SW(a) => enc_i(43, a.rs.0, a.rt.0, a.imm),
            Instruction::LWC1(a) => enc_i(49, a.rs.0, a.rt.0, a.imm),
            Instruction::LDC1(a) => enc_i(53, a.rs.0, a.rt.0, a.imm),
            Instruction::SWC1(a) => enc_i(57, a.rs.0, a.rt.0, a.imm),
            Instruction::J(t) => enc_j(2, t),
            Instruction::JAL(t) => enc_j(3, t),
            Instruction::MFC1(a) => enc_f(0, a),
            Instruction::MTC1(a) => enc_f(4, a),
            Instruction::MOV_S(a) => enc_f(16, a),
            Instruction::ADD_S(a) => enc_f(16, a),
            Instruction::SUB_S(a) => enc_f(16, a),
            Instruction::MUL_S(a) => enc_f(16, a),
            Instruction::DIV_S(a) => enc_f(16, a),
            Instruction::C_LT_S(a) => enc_f(16, a),
            Instruction::MOV_D(a) => enc_f(17, a),
            Instruction::ADD_D(a) => enc_f(17, a),
            Instruction::SUB_D(a) => enc_f(17, a),
            Instruction::MUL_D(a) => enc_f(17, a),
            Instruction::DIV_D(a) => enc_f(17, a),
            Instruction::CVT_S_D(a) => enc_f(17, a),
            Instruction::CVT_D_W(a) => enc_f(20, a),
            Instruction::BC1T(a) => enc_i(17, 8, a.ft.0, a.imm),
            Instruction::BC1F(a) => enc_i(17, 8, a.ft.0, a.imm),
        }
    }
}

/// Assembles an R-shaped word from its fields.
fn enc_r(a: RArgs, funct: u32) -> (w: u32)
    requires
        a.valid(),
        funct < 64,
    ensures
        w == ((0u32 << 26) | (a.rs.0 << 21) | (a.rt.0 << 16) | (a.rd.0 << 11) | (a.shamt << 6)
            | funct),
        w >> 26 == 0,
        (w >> 21) & 31 == a.rs.0,
        (w >> 16) & 31 == a.rt.0,
        (w >> 11) & 31 == a.rd.0,
        (w >> 6) & 31 == a.shamt,
        w & 63 == funct,
        w == 0 <==> (a.rs.0 == 0 && a.rt.0 == 0 && a.rd.0 == 0 && a.shamt == 0 && funct == 0),
{
    proof {
        lemma_encode_r(0, a.rs.0, a.rt.0, a.rd.0, a.shamt, funct);
    }
    (0u32 << 26) | (a.rs.0 << 21) | (a.rt.0 << 16) | (a.rd.0 << 11) | (a.shamt << 6) | funct
}

/// Assembles an I-shaped word from its fields.
fn enc_i(op: u32, rs: u32, rt: u32, imm: u32) -> (w: u32)
    requires
        0 < op < 64,
        rs < 32,
        rt < 32,
        imm < 0x1_0000,
    ensures
        w >> 26 == op,
        (w >> 21) & 31 == rs,
        (w >> 16) & 31 == rt,
        w & 0xFFFF == imm,
        w & 63 == (imm & 63),
        w != 0,
{
    proof {
        lemma_encode_i(op, rs, rt, imm);
    }
    (op << 26) | (rs << 21) | (rt << 16) | imm
}

/// Assembles a J-shaped word from its fields.
fn enc_j(op: u32, target: u32) -> (w: u32)
    requires
        0 < op < 64,
        target < 0x400_0000,
    ensures
        w >> 26 == op,
        w & 0x3FF_FFFF == target,
        w != 0,
{
    proof {
        lemma_encode_j(op, target);
    }
    (op << 26) | target
}

/// Assembles a floating-point R-shaped word from its fields.
fn enc_f(fmt: u32, a: FRArgs) -> (w: u32)
    requires
        fmt < 32,
        a.valid(),
    ensures
        w >> 26 == 17,
        (w >> 21) & 31 == fmt,
        (w >> 16) & 31 == a.ft.0,
        (w >> 11) & 31 == a.fs.0,
        (w >> 6) & 31 == a.fd.0,
        w & 63 == a.funct,
        w & 0xFFFF == ((a.fs.0 << 11) | (a.fd.0 << 6) | a.funct),
        w != 0,
{
    proof {
        lemma_encode_r(17, fmt, a.ft.0, a.fs.0, a.fd.0, a.funct);
    }
    (17u32 << 26) | (fmt << 21) | (a.ft.0 << 16) | (a.fs.0 << 11) | (a.fd.0 << 6) | a.funct
}

} // verus!
