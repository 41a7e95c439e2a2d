//! Word-level helpers: two's-complement reinterpretation, sign extension,
//! and the branch- and jump-target arithmetic of the instruction set.

use vstd::prelude::*;

verus! {

/// The signed (two's complement) reading of a 32-bit word.
pub open spec fn as_signed_spec(v: u32) -> int {
    if v < 0x8000_0000 {
        v as int
    } else {
        v as int - 0x1_0000_0000
    }
}

/// The unsigned word whose bit pattern encodes the signed value `v`.
pub open spec fn as_unsigned_spec(v: i32) -> u32 {
    if v >= 0 {
        v as u32
    } else {
        (v + 0x1_0000_0000) as u32
    }
}

/// Addition modulo 2^32, the wrap-around the architecture specifies.
pub open spec fn wadd(a: u32, b: u32) -> u32 {
    ((a + b) % 0x1_0000_0000) as u32
}

/// Subtraction modulo 2^32.
pub open spec fn wsub(a: u32, b: u32) -> u32 {
    (((a - b) + 0x1_0000_0000) % 0x1_0000_0000) as u32
}

/// Sign extension: the low `size` bits of `val` are kept, and bit
/// `size - 1` is copied into bits `size..32`.
pub open spec fn sign_extend_spec(val: u32, size: u32) -> u32
    recommends
        1 <= size <= 32,
{
    if size >= 32 {
        val
    } else if val & (1u32 << ((size - 1) as u32)) == 0 {
        val & (((1u32 << size) - 1) as u32)
    } else {
        (val & (((1u32 << size) - 1) as u32)) | (0xFFFF_FFFFu32 << size)
    }
}

/// Reinterprets the bits of an unsigned 32-bit word as a signed one.
pub fn as_signed(val: u32) -> (r: i32)
    ensures
        r as int == as_signed_spec(val),
{
    proof {
        assert(val < 0x8000_0000 ==> val as i32 as int == val as int) by (bit_vector);
        assert(val >= 0x8000_0000 ==> val as i32 as int == val as int - 0x1_0000_0000)
            by (bit_vector);
    }
    val as i32
}

/// Reinterprets the bits of a signed 32-bit value as an unsigned word.
pub fn as_unsigned(val: i32) -> (r: u32)
    ensures
        r == as_unsigned_spec(val),
{
    proof {
        assert(val >= 0 ==> val as u32 as int == val as int) by (bit_vector);
        assert(val < 0 ==> val as u32 as int == val as int + 0x1_0000_0000) by (bit_vector);
    }
    val as u32
}

/// Addition that wraps modulo 2^32.
pub fn wrapping_add(a: u32, b: u32) -> (r: u32)
    ensures
        r == wadd(a, b),
{
    if a <= u32::MAX - b {
        a + b
    } else {
        proof {
            assert(a + b - 0x1_0000_0000 == (a + b) % 0x1_0000_0000) by {
                assert(0x1_0000_0000 <= a + b < 0x2_0000_0000);
            }
        }
        ((a as u64 + b as u64) - 0x1_0000_0000) as u32
    }
}

/// Subtraction that wraps modulo 2^32.
pub fn wrapping_sub(a: u32, b: u32) -> (r: u32)
    ensures
        r == wsub(a, b),
{
    if a >= b {
        proof {
            assert((a - b + 0x1_0000_0000) % 0x1_0000_0000 == a - b) by {
                assert(0x1_0000_0000 <= a - b + 0x1_0000_0000 < 0x2_0000_0000);
            }
        }
        a - b
    } else {
        proof {
            assert(0 <= a - b + 0x1_0000_0000 < 0x1_0000_0000);
        }
        ((a as u64 + 0x1_0000_0000) - b as u64) as u32
    }
}

/// Sign-extends `val`, whose meaningful width is `size` bits: bit
/// `size - 1` is copied into every higher bit.
pub fn sign_extend(val: u32, size: u32) -> (r: u32)
    requires
        1 <= size <= 32,
    ensures
        r == sign_extend_spec(val, size),
{
    if size == 32 {
        val
    } else {
        proof {
            assert(size < 32 ==> (1u32 << size) >= 1) by (bit_vector);
        }
        let low = val & ((1u32 << size) - 1);
        if val & (1u32 << (size - 1)) == 0 {
            low
        } else {
            low | (0xFFFF_FFFFu32 << size)
        }
    }
}

/// Sign-extends `val` from `size` bits and reads the result as a signed
/// 32-bit value.
pub fn sign_extend_cast(val: u32, size: u32) -> (r: i32)
    requires
        1 <= size <= 32,
    ensures
        r as int == as_signed_spec(sign_extend_spec(val, size)),
{
    as_signed(sign_extend(val, size))
}

/// The byte displacement a 16-bit branch immediate denotes: the immediate is
/// sign-extended and shifted left by two.
pub open spec fn branch_addr_spec(imm: u32) -> u32 {
    sign_extend_spec(imm, 16) << 2
}

/// The target of a taken branch with immediate `imm`, relative to the address
/// `pc` of the branch instruction itself.
pub open spec fn branch_target_spec(pc: u32, imm: u32) -> u32 {
    wadd(wadd(pc, 4), branch_addr_spec(imm))
}

/// Computes the byte displacement of a 16-bit branch immediate, as a signed
/// value.
pub fn branch_addr(imm: u32) -> (r: i32)
    requires
        imm < 0x1_0000,
    ensures
        r as int == as_signed_spec(branch_addr_spec(imm)),
{
    as_signed(sign_extend(imm, 16) << 2)
}

/// Computes the absolute target of a taken branch at `pc` with immediate
/// `imm`.
pub fn branch_target(pc: u32, imm: u32) -> (r: u32)
    requires
        imm < 0x1_0000,
    ensures
        r == branch_target_spec(pc, imm),
{
    wrapping_add(wrapping_add(pc, 4), sign_extend(imm, 16) << 2)
}

/// The target of a jump: the top four bits of the successor address joined
/// with the 26-bit target field shifted left by two.
pub open spec fn jump_addr_spec(pc: u32, target: u32) -> u32 {
    (wadd(pc, 4) & 0xF000_0000) | (target << 2)
}

/// Computes the absolute target of a jump at `pc` with 26-bit field
/// `target`.
pub fn jump_addr(pc: u32, target: u32) -> (r: u32)
    requires
        target < 0x400_0000,
    ensures
        r == jump_addr_spec(pc, target),
{
    (wrapping_add(pc, 4) & 0xF000_0000) | (target << 2)
}

/// Sign extension preserves any value that fits in `size` signed bits, and
/// turns every bit above `size` on for any other value of `size` bits.
pub proof fn lemma_sign_extend_value(val: u32, size: u32)
    requires
        1 <= size < 32,
        val < (1u32 << size),
    ensures
        val < (1u32 << ((size - 1) as u32)) ==> sign_extend_spec(val, size) == val,
        val >= (1u32 << ((size - 1) as u32)) ==> sign_extend_spec(val, size) == val | (
        0xFFFF_FFFFu32 << size),
        val >= (1u32 << ((size - 1) as u32)) ==> sign_extend_spec(val, size) == val
            + 0x1_0000_0000 - (1u32 << size),
{
    assert((1 <= size < 32 && val < (1u32 << size) && val < (1u32 << ((size - 1) as u32)))
        ==> (val & (1u32 << ((size - 1) as u32)) == 0) && (val & (((1u32 << size) - 1) as u32))
        == val) by (bit_vector);
    assert((1 <= size < 32 && val < (1u32 << size) && val >= (1u32 << ((size - 1) as u32)))
        ==> (val & (1u32 << ((size - 1) as u32)) != 0) && ((val & (((1u32 << size) - 1) as u32))
        | (0xFFFF_FFFFu32 << size)) == (val | (0xFFFF_FFFFu32 << size)) && (val | (0xFFFF_FFFFu32
        << size)) == val + 0x1_0000_0000 - (1u32 << size)) by (bit_vector);
}

/// The signed reading of a sign-extended value equals the two's-complement
/// reading of the raw `size`-bit field.
pub proof fn lemma_sign_extend_signed(val: u32, size: u32)
    requires
        1 <= size < 32,
        val < (1u32 << size),
    ensures
        val < (1u32 << ((size - 1) as u32)) ==> as_signed_spec(sign_extend_spec(val, size))
            == val,
        val >= (1u32 << ((size - 1) as u32)) ==> as_signed_spec(sign_extend_spec(val, size))
            == val - (1u32 << size),
{
    lemma_sign_extend_value(val, size);
    assert(1 <= size < 32 ==> (1u32 << ((size - 1) as u32)) < 0x8000_0000 && (1u32 << size)
        <= 0x8000_0000 && (1u32 << ((size - 1) as u32)) >= 1) by (bit_vector);
}

/// A taken branch lands on a word boundary: the branch displacement is a
/// multiple of four, so a word-aligned `pc` yields a word-aligned target.
pub proof fn lemma_branch_target_aligned(pc: u32, imm: u32)
    requires
        pc % 4 == 0,
        imm < 0x1_0000,
    ensures
        branch_target_spec(pc, imm) % 4 == 0,
        branch_target_spec(pc, imm) == (pc + 4 + branch_addr_spec(imm)) % 0x1_0000_0000,
{
    let d = branch_addr_spec(imm);
    assert((sign_extend_spec(imm, 16) << 2) % 4 == 0) by (bit_vector);
    let s = wadd(pc, 4);
    assert(s % 4 == 0);
    assert(s % 4 == 0 && d % 4 == 0 ==> ((s + d) % 0x1_0000_0000) % 4 == 0) by (bit_vector);
    if pc + 4 < 0x1_0000_0000 {
    } else {
        assert((pc + 4 - 0x1_0000_0000 + d) % 0x1_0000_0000 == (pc + 4 + d) % 0x1_0000_0000);
    }
}

/// The jump target is word-aligned.
pub proof fn lemma_jump_target_aligned(pc: u32, target: u32)
    requires
        target < 0x400_0000,
    ensures
        jump_addr_spec(pc, target) % 4 == 0,
{
    let s = wadd(pc, 4);
    assert(target < 0x400_0000 ==> ((s & 0xF000_0000) | (target << 2)) % 4 == 0) by (bit_vector);
}

} // verus!
