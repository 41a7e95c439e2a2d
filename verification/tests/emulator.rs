//! End-to-end runs of the CPU over the memory configurations, and the
//! instruction-level behaviors the architecture fixes.

use minips::cpu::{Cpu, Effect, FpuOp};
use minips::err::EmuError;
use minips::instr::{FIArgs, FloatRegister, FRArgs, IArgs, Instruction, RArgs, Register};
use minips::loader::{boot, Executable, TEXT_BASE};

fn run_collect(cpu: &mut Cpu, max_cycles: usize) -> String {
    let mut out = String::new();
    for _ in 0..max_cycles {
        match cpu.cycle().unwrap() {
            Effect::Nothing => {}
            Effect::PrintInt(bits) => out.push_str(&format!("{}", bits as i32)),
            Effect::PrintChar(b) => out.push(b as char),
            Effect::PrintString(bs) => {
                for b in bs {
                    out.push(b as char);
                }
            }
            Effect::Halted => return out,
            other => panic!("unexpected effect {:?}", other),
        }
    }
    panic!("program did not halt");
}

#[test]
fn integer_arithmetic_program_prints_three_and_halts() {
    let text = vec![
        0x24020001, // ADDIU $v0, $zero, 1
        0x24040002, // ADDIU $a0, $zero, 2
        0x00822020, // ADD   $a0, $a0, $v0
        0x0000000C, // SYSCALL (print int)
        0x2402000A, // ADDIU $v0, $zero, 10
        0x0000000C, // SYSCALL (halt)
    ];
    let exe = Executable::new(text, None, None);
    let mut cpu = boot(1, false, &exe, TEXT_BASE).unwrap();
    let out = run_collect(&mut cpu, 100);
    assert_eq!(out, "3");
    assert!(cpu.halted);
}

#[test]
fn branch_delay_slot_runs_once_before_target_lands() {
    // $t0 = 1; a taken branch whose delay slot adds 10; the instruction at
    // the fall-through beyond the delay slot adds 100 and must be skipped.
    let text = vec![
        0x24080001, // ADDIU $t0, $zero, 1
        0x10000002, // BEQ   $zero, $zero, +2 (lands past the skipped add)
        0x2508000A, // ADDIU $t0, $t0, 10   (delay slot: executes)
        0x25080064, // ADDIU $t0, $t0, 100  (skipped)
        0x2402000A, // ADDIU $v0, $zero, 10
        0x0000000C, // SYSCALL (halt)
    ];
    let exe = Executable::new(text, None, None);
    let mut cpu = boot(1, false, &exe, TEXT_BASE).unwrap();
    let _ = run_collect(&mut cpu, 100);
    assert_eq!(cpu.regs.read(Register(8)), 11);
}

#[test]
fn add_wraps_on_overflow_without_trapping() {
    let text = vec![
        0x2408FFFF, // ADDIU $t0, $zero, -1
        0x01084820, // ADD   $t1, $t0, $t0
        0x2402000A, 0x0000000C, // halt
    ];
    let exe = Executable::new(text, None, None);
    let mut cpu = boot(1, false, &exe, TEXT_BASE).unwrap();
    let _ = run_collect(&mut cpu, 100);
    assert_eq!(cpu.regs.read(Register(9)), 0xFFFF_FFFE);
}

#[test]
fn writes_to_zero_register_are_discarded() {
    let text = vec![
        0x24000005, // ADDIU $zero, $zero, 5
        0x00004020, // ADD   $t0, $zero, $zero
        0x2402000A, 0x0000000C, // halt
    ];
    let exe = Executable::new(text, None, None);
    let mut cpu = boot(1, false, &exe, TEXT_BASE).unwrap();
    let _ = run_collect(&mut cpu, 100);
    assert_eq!(cpu.regs.read(Register(0)), 0);
    assert_eq!(cpu.regs.read(Register(8)), 0);
}

#[test]
fn halt_syscall_sets_halted_and_stamps_finish() {
    let text = vec![
        0x2402000A, // ADDIU $v0, $zero, 10
        0x0000000C, // SYSCALL
    ];
    let exe = Executable::new(text, None, None);
    let mut cpu = boot(2, false, &exe, TEXT_BASE).unwrap();
    cpu.stats.start();
    let out = run_collect(&mut cpu, 10);
    assert_eq!(out, "");
    assert!(cpu.halted);
    let (_cycles, started, finished) = cpu.stats.timing();
    assert!(started.is_some());
    assert!(finished.is_some());
}

#[test]
fn signed_division_truncates_toward_zero() {
    let text = vec![
        0x24080007, // ADDIU $t0, $zero, 7
        0x2409FFFE, // ADDIU $t1, $zero, -2
        0x0109001A, // DIV   $t0, $t1
        0x00005012, // MFLO  $t2
        0x00005810, // MFHI  $t3
        0x2402000A, 0x0000000C, // halt
    ];
    let exe = Executable::new(text, None, None);
    let mut cpu = boot(1, false, &exe, TEXT_BASE).unwrap();
    let _ = run_collect(&mut cpu, 100);
    assert_eq!(cpu.regs.read(Register(10)) as i32, -3);
    assert_eq!(cpu.regs.read(Register(11)) as i32, 1);
}

#[test]
fn division_by_zero_raises_its_own_error() {
    let text = vec![
        0x24080007, // ADDIU $t0, $zero, 7
        0x0100001A, // DIV   $t0, $zero
    ];
    let exe = Executable::new(text, None, None);
    let mut cpu = boot(1, false, &exe, TEXT_BASE).unwrap();
    assert!(cpu.cycle().is_ok());
    assert_eq!(cpu.cycle().unwrap_err(), EmuError::DivideByZero);
}

#[test]
fn mult_produces_the_full_signed_product() {
    let text = vec![
        0x2408FFFE, // ADDIU $t0, $zero, -2
        0x24090003, // ADDIU $t1, $zero, 3
        0x01090018, // MULT  $t0, $t1
        0x00005012, // MFLO  $t2
        0x00005810, // MFHI  $t3
        0x2402000A, 0x0000000C, // halt
    ];
    let exe = Executable::new(text, None, None);
    let mut cpu = boot(1, false, &exe, TEXT_BASE).unwrap();
    let _ = run_collect(&mut cpu, 100);
    assert_eq!(cpu.regs.read(Register(10)), 0xFFFF_FFFA);
    assert_eq!(cpu.regs.read(Register(11)), 0xFFFF_FFFF);
}

#[test]
fn arithmetic_shift_replicates_the_sign_bit() {
    let sra = Instruction::SRA(RArgs {
        rs: Register(0),
        rt: Register(8),
        rd: Register(9),
        shamt: 4,
    });
    let text = vec![
        0x3C088000, // LUI $t0, 0x8000
        sra.encode(),
        0x2402000A,
        0x0000000C,
    ];
    let exe = Executable::new(text, None, None);
    let mut cpu = boot(1, false, &exe, TEXT_BASE).unwrap();
    let _ = run_collect(&mut cpu, 100);
    assert_eq!(cpu.regs.read(Register(9)), 0xF800_0000);
}

#[test]
fn unaligned_load_raises_an_alignment_error() {
    let lw = Instruction::LW(IArgs { rs: Register(8), rt: Register(9), imm: 2 });
    let text = vec![
        0x24080000, // ADDIU $t0, $zero, 0
        lw.encode(), // LW $t1, 2($t0): effective address 2
    ];
    let exe = Executable::new(text, None, None);
    let mut cpu = boot(1, false, &exe, TEXT_BASE).unwrap();
    assert!(cpu.cycle().is_ok());
    assert_eq!(cpu.cycle().unwrap_err(), EmuError::Alignment { addr: 2 });
}

#[test]
fn unaligned_store_raises_an_alignment_error() {
    let sw = Instruction::SW(IArgs { rs: Register(8), rt: Register(9), imm: 6 });
    let text = vec![0x24080000, sw.encode()];
    let exe = Executable::new(text, None, None);
    let mut cpu = boot(1, false, &exe, TEXT_BASE).unwrap();
    assert!(cpu.cycle().is_ok());
    assert_eq!(cpu.cycle().unwrap_err(), EmuError::Alignment { addr: 6 });
}

#[test]
fn store_then_load_round_trips_through_the_cache() {
    let text = vec![
        0x3C081001, // LUI   $t0, 0x1001 ($t0 = 0x10010000)
        0x2409002A, // ADDIU $t1, $zero, 42
        0xAD090000, // SW    $t1, 0($t0)
        0x8D0A0000, // LW    $t2, 0($t0)
        0x2402000A, 0x0000000C, // halt
    ];
    let exe = Executable::new(text, None, None);
    for conf in 1..=6 {
        let mut cpu = boot(conf, false, &exe, TEXT_BASE).unwrap();
        let _ = run_collect(&mut cpu, 100);
        assert_eq!(cpu.regs.read(Register(10)), 42, "configuration {}", conf);
    }
}

#[test]
fn print_string_syscall_walks_memory_to_the_nul() {
    // "hi!" NUL-terminated at the data base
    let data = vec![0x00216968u32]; // 'h' 'i' '!' 0
    let text = vec![
        0x3C041001, // LUI   $a0, 0x1001
        0x24020004, // ADDIU $v0, $zero, 4
        0x0000000C, // SYSCALL (print string)
        0x2402000A, 0x0000000C, // halt
    ];
    let exe = Executable::new(text, Some(data), None);
    let mut cpu = boot(1, false, &exe, TEXT_BASE).unwrap();
    let out = run_collect(&mut cpu, 100);
    assert_eq!(out, "hi!");
}

#[test]
fn console_read_lands_in_v0_through_the_pending_answer() {
    let text = vec![
        0x24020005, // ADDIU $v0, $zero, 5
        0x0000000C, // SYSCALL (read int)
        0x2402000A, 0x0000000C, // halt
    ];
    let exe = Executable::new(text, None, None);
    let mut cpu = boot(1, false, &exe, TEXT_BASE).unwrap();
    loop {
        match cpu.cycle().unwrap() {
            Effect::Nothing => {}
            Effect::ReadInt => {
                cpu.provide_int(1234u32);
                break;
            }
            other => panic!("unexpected effect {:?}", other),
        }
    }
    assert_eq!(cpu.regs.read(Register(2)), 1234);
    let _ = run_collect(&mut cpu, 100);
    assert!(cpu.halted);
}

#[test]
fn unknown_syscall_warns_and_continues() {
    let text = vec![
        0x24020063, // ADDIU $v0, $zero, 99
        0x0000000C, // SYSCALL
        0x2402000A, 0x0000000C, // halt
    ];
    let exe = Executable::new(text, None, None);
    let mut cpu = boot(1, false, &exe, TEXT_BASE).unwrap();
    let mut saw_unknown = false;
    for _ in 0..100 {
        match cpu.cycle().unwrap() {
            Effect::Nothing => {}
            Effect::UnknownSyscall(n) => {
                assert_eq!(n, 99);
                saw_unknown = true;
            }
            Effect::Halted => break,
            other => panic!("unexpected effect {:?}", other),
        }
    }
    assert!(saw_unknown);
    assert!(cpu.halted);
}

#[test]
fn jal_links_the_return_address_and_jumps() {
    let text = vec![
        0x0C100004, // JAL 0x100004 (byte target 0x00400010)
        0x00000000, // NOP (delay slot)
        0x25080001, // ADDIU $t0, $t0, 1 (skipped)
        0x25080001, // ADDIU $t0, $t0, 1 (skipped)
        0x2402000A, // target: halt sequence
        0x0000000C,
    ];
    let exe = Executable::new(text, None, None);
    let mut cpu = boot(1, false, &exe, TEXT_BASE).unwrap();
    let _ = run_collect(&mut cpu, 100);
    assert_eq!(cpu.regs.read(Register(8)), 0);
    assert_eq!(cpu.regs.read(Register(31)), TEXT_BASE + 4);
}

#[test]
fn unknown_configuration_is_refused() {
    let exe = Executable::new(vec![0x0000000C], None, None);
    match boot(7, false, &exe, TEXT_BASE) {
        Err(EmuError::Configuration { conf }) => assert_eq!(conf, 7),
        other => panic!("expected a configuration error, got {:?}", other.is_ok()),
    }
}

#[test]
fn undecodable_word_reports_opcode_and_funct() {
    let text = vec![0xFC00003F];
    let exe = Executable::new(text, None, None);
    let mut cpu = boot(1, false, &exe, TEXT_BASE).unwrap();
    assert_eq!(
        cpu.cycle().unwrap_err(),
        EmuError::Decode { opcode: 0x3F, funct: 0x3F }
    );
}

#[test]
fn float_add_flows_through_the_effect_protocol() {
    let one = 1.0f32.to_bits(); // 0x3F800000
    let mtc1 = Instruction::MTC1(FRArgs {
        ft: FloatRegister(8),
        fs: FloatRegister(1),
        fd: FloatRegister(0),
        funct: 0,
    });
    let add_s = Instruction::ADD_S(FRArgs {
        ft: FloatRegister(1),
        fs: FloatRegister(1),
        fd: FloatRegister(2),
        funct: 0,
    });
    let text = vec![
        0x3C083F80, // LUI $t0, 0x3F80 (the bits of 1.0)
        mtc1.encode(),
        add_s.encode(),
        0x2402000A,
        0x0000000C,
    ];
    let exe = Executable::new(text, None, None);
    let mut cpu = boot(1, false, &exe, TEXT_BASE).unwrap();
    let mut served = false;
    for _ in 0..100 {
        match cpu.cycle().unwrap() {
            Effect::Nothing => {}
            Effect::Fpu(FpuOp::AddS(a, b)) => {
                assert_eq!(a, one);
                assert_eq!(b, one);
                let sum = f32::from_bits(a) + f32::from_bits(b);
                cpu.provide_fpu_word(sum.to_bits());
                served = true;
            }
            Effect::Halted => break,
            other => panic!("unexpected effect {:?}", other),
        }
    }
    assert!(served);
    assert_eq!(cpu.fregs.read(FloatRegister(2)), 2.0f32.to_bits());
}

#[test]
fn float_compare_drives_the_condition_branch() {
    let mtc1_small = Instruction::MTC1(FRArgs {
        ft: FloatRegister(8),
        fs: FloatRegister(1),
        fd: FloatRegister(0),
        funct: 0,
    });
    let mtc1_big = Instruction::MTC1(FRArgs {
        ft: FloatRegister(9),
        fs: FloatRegister(2),
        fd: FloatRegister(0),
        funct: 0,
    });
    let cmp = Instruction::C_LT_S(FRArgs {
        ft: FloatRegister(2),
        fs: FloatRegister(1),
        fd: FloatRegister(0),
        funct: 60,
    });
    let bc1t = Instruction::BC1T(FIArgs { ft: FloatRegister(1), imm: 2 });
    let text = vec![
        0x3C083F80, // LUI $t0, 0x3F80 (1.0)
        0x3C094000, // LUI $t1, 0x4000 (2.0)
        mtc1_small.encode(),
        mtc1_big.encode(),
        cmp.encode(),
        bc1t.encode(),
        0x00000000, // NOP (delay slot)
        0x250A0001, // ADDIU $t2, $t2, 1 (skipped when the branch takes)
        0x2402000A,
        0x0000000C,
    ];
    let exe = Executable::new(text, None, None);
    let mut cpu = boot(1, false, &exe, TEXT_BASE).unwrap();
    for _ in 0..100 {
        match cpu.cycle().unwrap() {
            Effect::Nothing => {}
            Effect::Fpu(FpuOp::CmpLtS(fs, ft)) => {
                cpu.provide_fpu_flag(f32::from_bits(fs) < f32::from_bits(ft));
            }
            Effect::Halted => break,
            other => panic!("unexpected effect {:?}", other),
        }
    }
    assert!(cpu.halted);
    assert_eq!(cpu.regs.read(Register(10)), 0);
}

#[test]
fn byte_load_sign_extends_the_low_byte() {
    let data = vec![0x1234_56F0u32]; // low byte 0xF0: negative as a byte
    let text = vec![
        0x3C081001, // LUI $t0, 0x1001
        0x81090000, // LB  $t1, 0($t0)
        0x2402000A,
        0x0000000C,
    ];
    let exe = Executable::new(text, Some(data), None);
    let mut cpu = boot(1, false, &exe, TEXT_BASE).unwrap();
    let _ = run_collect(&mut cpu, 100);
    assert_eq!(cpu.regs.read(Register(9)), 0xFFFF_FFF0);
}
