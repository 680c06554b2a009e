//! Fixed-point multiply-shift scaling.
//!
//! `reciprocal_scale_u8`, `reciprocal_scale_u16` and `reciprocal_scale_u32`
//! map a value drawn from the full range of an unsigned integer type into
//! `[0, ep_ro)` by computing `(val * ep_ro) >> width` in a double-width
//! intermediate, replacing a division or modulo instruction.

use vstd::arithmetic::div_mod::lemma_div_is_ordered;
use vstd::prelude::*;

verus! {

/// The mathematical value of a multiply-shift: the product of `val` and
/// `factor` scaled down by `modulus` (integer division).
pub open spec fn scaled(val: int, factor: int, modulus: int) -> int
    recommends
        modulus > 0,
{
    (val * factor) / modulus
}

/// Scaling never reaches the factor: for `val` below the modulus,
/// `scaled(val, factor, modulus) < factor`.
pub proof fn lemma_scaled_below_factor(val: int, factor: int, modulus: int)
    requires
        0 <= val < modulus,
        0 < factor,
    ensures
        scaled(val, factor, modulus) < factor,
{
    assert(val * factor <= (modulus - 1) * factor) by (nonlinear_arith)
        requires
            0 <= val <= modulus - 1,
            0 < factor,
    ;
    assert((modulus - 1) * factor == modulus * factor - factor) by (nonlinear_arith);
    lemma_div_is_ordered(val * factor, modulus * factor - factor, modulus);
    assert((modulus * factor - factor) / modulus <= factor - 1) by (nonlinear_arith)
        requires
            0 < factor,
            0 < modulus,
    ;
}

/// Scaling is monotone in the scaled value: a larger `val` never produces a
/// smaller result for the same `factor`.
pub proof fn lemma_scaled_monotone(v1: int, v2: int, factor: int, modulus: int)
    requires
        0 <= v1 <= v2,
        0 <= factor,
        0 < modulus,
    ensures
        scaled(v1, factor, modulus) <= scaled(v2, factor, modulus),
{
    assert(v1 * factor <= v2 * factor) by (nonlinear_arith)
        requires
            0 <= v1 <= v2,
            0 <= factor,
    ;
    lemma_div_is_ordered(v1 * factor, v2 * factor, modulus);
}

/// Maps `val` into `[0, ep_ro)` by an 8-bit multiply-shift.
pub fn reciprocal_scale_u8(val: u8, ep_ro: u8) -> (r: u8)
    ensures
        r as int == scaled(val as int, ep_ro as int, 0x100),
        ep_ro > 0 ==> r < ep_ro,
{
    proof {
        assert(val as int * ep_ro as int <= 255 * 255) by (nonlinear_arith)
            requires
                val as int <= 255,
                ep_ro as int <= 255,
        ;
    }
    let p: u16 = val as u16 * ep_ro as u16;
    assert(p >> 8 == p / 0x100) by (bit_vector);
    let r = (p >> 8) as u8;
    proof {
        if ep_ro > 0 {
            lemma_scaled_below_factor(val as int, ep_ro as int, 0x100);
        }
    }
    r
}

/// Maps `val` into `[0, ep_ro)` by a 16-bit multiply-shift.
pub fn reciprocal_scale_u16(val: u16, ep_ro: u16) -> (r: u16)
    ensures
        r as int == scaled(val as int, ep_ro as int, 0x10000),
        ep_ro > 0 ==> r < ep_ro,
{
    proof {
        assert(val as int * ep_ro as int <= 0xffff * 0xffff) by (nonlinear_arith)
            requires
                val as int <= 0xffff,
                ep_ro as int <= 0xffff,
        ;
    }
    let p: u32 = val as u32 * ep_ro as u32;
    assert(p >> 16 == p / 0x10000) by (bit_vector);
    let r = (p >> 16) as u16;
    proof {
        if ep_ro > 0 {
            lemma_scaled_below_factor(val as int, ep_ro as int, 0x10000);
        }
    }
    r
}

/// Maps `val` into `[0, ep_ro)` by a 32-bit multiply-shift.
pub fn reciprocal_scale_u32(val: u32, ep_ro: u32) -> (r: u32)
    ensures
        r as int == scaled(val as int, ep_ro as int, 0x1_0000_0000),
        ep_ro > 0 ==> r < ep_ro,
{
    proof {
        assert(val as int * ep_ro as int <= 0xffff_ffff * 0xffff_ffff) by (nonlinear_arith)
            requires
                val as int <= 0xffff_ffff,
                ep_ro as int <= 0xffff_ffff,
        ;
    }
    let p: u64 = val as u64 * ep_ro as u64;
    assert(p >> 32 == p / 0x1_0000_0000) by (bit_vector);
    let r = (p >> 32) as u32;
    proof {
        if ep_ro > 0 {
            lemma_scaled_below_factor(val as int, ep_ro as int, 0x1_0000_0000);
        }
    }
    r
}

} // verus!
