//! Word-level helpers, the decoder and the encoder: sign extension, branch
//! and jump arithmetic, decode errors, and the lossless round trip.

use minips::bits::{as_signed, as_unsigned, branch_addr, branch_target, jump_addr, sign_extend};
use minips::cop0::Cop0;
use minips::err::EmuError;
use minips::instr::{decode, FloatRegister, IArgs, Instruction, Kind, RArgs, Register};
use minips::loader::words_from_le_bytes;
use minips::stats::StatsReporter;

#[test]
fn sign_extension_preserves_small_values_and_sets_high_bits() {
    assert_eq!(sign_extend(0x7FFF, 16), 0x7FFF);
    assert_eq!(sign_extend(0x8000, 16), 0xFFFF_8000);
    assert_eq!(sign_extend(0xFFFF, 16), 0xFFFF_FFFF);
    assert_eq!(sign_extend(0x7F, 8), 0x7F);
    assert_eq!(sign_extend(0x80, 8), 0xFFFF_FF80);
    // the meaningful width masks away anything above it
    assert_eq!(sign_extend(0x1234_5678, 8), 0x78);
    assert_eq!(sign_extend(0xDEAD_BEEF, 32), 0xDEAD_BEEF);
}

#[test]
fn signed_reinterpretation_round_trips() {
    assert_eq!(as_signed(0xFFFF_FFFF), -1);
    assert_eq!(as_signed(0x8000_0000), i32::MIN);
    assert_eq!(as_unsigned(-1), 0xFFFF_FFFF);
    assert_eq!(as_unsigned(i32::MIN), 0x8000_0000);
    assert_eq!(as_unsigned(as_signed(0x1234_5678)), 0x1234_5678);
}

#[test]
fn branch_displacement_is_the_sign_extended_immediate_times_four() {
    assert_eq!(branch_addr(1), 4);
    assert_eq!(branch_addr(0xFFFF), -4);
    assert_eq!(branch_addr(0x8000), -131072);
    let pc = 0x0040_0004u32;
    let target = branch_target(pc, 2);
    assert_eq!(target, pc + 4 + 8);
    assert_eq!(target % 4, 0);
}

#[test]
fn jump_target_joins_the_high_bits_with_the_shifted_field() {
    assert_eq!(jump_addr(0x0040_0000, 0x100004), 0x0040_0010);
    assert_eq!(jump_addr(0xF000_0000, 1), 0xF000_0004);
    assert_eq!(jump_addr(0x0040_0000, 0x3FF_FFFF) % 4, 0);
}

#[test]
fn decode_recognizes_the_programs_of_the_run_scenarios() {
    assert_eq!(
        decode(0x24020001).unwrap(),
        Instruction::ADDIU(IArgs { rs: Register(0), rt: Register(2), imm: 1 })
    );
    assert_eq!(
        decode(0x00822020).unwrap(),
        Instruction::ADD(RArgs {
            rs: Register(4),
            rt: Register(2),
            rd: Register(4),
            shamt: 0
        })
    );
    assert!(matches!(decode(0x0000000C).unwrap(), Instruction::SYSCALL(_)));
    assert_eq!(decode(0).unwrap(), Instruction::NOP);
    assert_eq!(decode(0x0C100004).unwrap(), Instruction::JAL(0x100004));
}

#[test]
fn decode_rejects_unknown_encodings_with_their_fields() {
    assert_eq!(
        decode(0xFC00003F).unwrap_err(),
        EmuError::Decode { opcode: 0x3F, funct: 0x3F }
    );
    // R-type with an unknown function field
    assert_eq!(
        decode(0x0000003F).unwrap_err(),
        EmuError::Decode { opcode: 0, funct: 0x3F }
    );
    // coprocessor-0 encodings are decoded by the same table and unknown
    assert_eq!(
        decode(0x40000000).unwrap_err(),
        EmuError::Decode { opcode: 16, funct: 0 }
    );
}

#[test]
fn encode_then_decode_recovers_every_scenario_word() {
    let words = vec![
        0x24020001u32,
        0x24040002,
        0x00822020,
        0x0000000C,
        0x2402000A,
        0x10000002,
        0x2508000A,
        0x3C088000,
        0x8D0A0000,
        0xAD090000,
        0x0109001A,
        0x00005012,
        0x00005810,
        0x01090018,
        0x0C100004,
        0x08100000,
        0x00000000,
        0x3C041001,
        0x0040F809, // JALR
        0x04110002, // BAL
        0x04010002, // BGEZ
        0x18200004, // BLEZ
        0x46020840, // ADD.S
        0x4600103C, // C.LT.S
        0x4501FFFE, // BC1T
        0x4500FFFE, // BC1F
        0xC48C0000, // LWC1
        0xD48C0000, // LDC1
        0xE48C0000, // SWC1
    ];
    for w in words {
        let i = decode(w).unwrap();
        assert_eq!(i.encode(), w, "word {:#010x}", w);
        assert_eq!(decode(i.encode()).unwrap(), i);
    }
}

#[test]
fn instruction_kinds_follow_the_encoding_families() {
    assert_eq!(decode(0x00822020).unwrap().kind(), Kind::R);
    assert_eq!(decode(0x24020001).unwrap().kind(), Kind::I);
    assert_eq!(decode(0x0C100004).unwrap().kind(), Kind::J);
    assert_eq!(decode(0x46020840).unwrap().kind(), Kind::FR);
    assert_eq!(decode(0x4501FFFE).unwrap().kind(), Kind::FI);
    assert_eq!(Instruction::NOP.kind(), Kind::R);
}

#[test]
fn byte_images_pack_into_little_endian_words() {
    let bytes = vec![0x01u8, 0x00, 0x02, 0x24, 0xEF, 0xBE, 0xAD, 0xDE];
    let words = words_from_le_bytes(&bytes);
    assert_eq!(words, vec![0x24020001, 0xDEADBEEF]);
}

#[test]
fn coprocessor_zero_registers_read_back_what_was_written() {
    let mut c = Cop0::new();
    assert_eq!(c.read_reg(12, 0), 0);
    c.write_reg(12, 0, 0xA5);
    c.write_reg(16, 2, 7);
    assert_eq!(c.read_reg(12, 0), 0xA5);
    assert_eq!(c.read_reg(16, 2), 7);
    assert_eq!(c.read_reg(16, 0), 0);
}

#[test]
fn statistics_count_instructions_by_family() {
    let mut s = StatsReporter::new();
    s.add_instr(Kind::R);
    s.add_instr(Kind::R);
    s.add_instr(Kind::I);
    s.add_instr(Kind::J);
    s.add_instr(Kind::FR);
    s.add_instr(Kind::FI);
    s.add_cycles(17);
    let (r, i, j, fr, fi, total) = s.counts();
    assert_eq!((r, i, j, fr, fi), (2, 1, 1, 1, 1));
    assert_eq!(total, 6);
    assert_eq!(s.timing().0, 17);
}

#[test]
fn float_register_indices_convert_for_the_move_instructions() {
    let fr = FloatRegister(12);
    assert_eq!(fr.0, 12);
    let r = Register(12);
    assert_eq!(r.0, fr.0);
}
