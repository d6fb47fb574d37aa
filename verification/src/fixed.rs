//! Fixed-point arithmetic: the library's stand-in for the 32-bit float
//! values that raw embeddings carry. A value is an integer count of
//! `1 / FX_ONE` units; callers outside the library convert machine
//! floats to this grid and back.
//!
//! The quantizers map a fixed-point value in `[0, upper_bound]` linearly
//! onto `[0, (1 << bits) - 1]` with round-to-nearest, clamped at the
//! bound, and back. The round-trip error bound is proved in
//! `lemma_quantize_round_trip`.

use vstd::prelude::*;

verus! {

/// One whole unit on the fixed-point grid (16 fractional bits).
pub const FX_ONE: u64 = 65536;

/// Largest fixed-point value the quantizers accept.
pub const FX_VALUE_MAX: u64 = 0x1_0000_0000;

/// Largest quantized code for a bit width.
pub open spec fn spec_max_code(bits: u8) -> int {
    ((1u64 << (bits as u64)) - 1) as int
}

/// Quantization: nearest code for `value` on the linear map
/// `[0, upper_bound] -> [0, (1 << bits) - 1]`, clamped at the top.
pub open spec fn spec_quantize(value: int, upper_bound: int, bits: u8) -> int
    recommends
        upper_bound > 0,
{
    let m = spec_max_code(bits);
    if value >= upper_bound {
        m
    } else if value <= 0 {
        0
    } else {
        (value * m + upper_bound / 2) / upper_bound
    }
}

/// Dequantization: the fixed-point value a code stands for.
pub open spec fn spec_dequantize(code: int, upper_bound: int, bits: u8) -> int
    recommends
        upper_bound > 0,
{
    code * upper_bound / spec_max_code(bits)
}

/// Largest quantized code, executable.
pub fn max_code(bits: u8) -> (r: u8)
    requires
        1 <= bits <= 8,
    ensures
        r as int == spec_max_code(bits),
        r >= 1,
{
    proof {
        assert((1u64 << (bits as u64)) - 1 == ((1u32 << (bits as u32)) - 1) as u64 && 1u32 <= (1u32
            << (bits as u32)) - 1 <= 255u32 && 1u32 << (bits as u32) >= 1) by (bit_vector)
            requires
                1 <= bits <= 8,
        ;
    }
    let m: u32 = (1u32 << (bits as u32)) - 1;
    m as u8
}

/// Quantizes a fixed-point value against an upper bound.
pub fn quantize(value: u64, upper_bound: u64, bits: u8) -> (r: u8)
    requires
        1 <= bits <= 8,
        upper_bound > 0,
        value <= FX_VALUE_MAX,
        upper_bound <= FX_VALUE_MAX,
    ensures
        r as int == spec_quantize(value as int, upper_bound as int, bits),
        r as int <= spec_max_code(bits),
{
    let m = max_code(bits);
    if value >= upper_bound {
        m
    } else {
        proof {
            assert(value * (m as u64) <= FX_VALUE_MAX * 255) by (nonlinear_arith)
                requires
                    value <= FX_VALUE_MAX,
                    m <= 255,
            ;
        }
        let q = (value * (m as u64) + upper_bound / 2) / upper_bound;
        proof {
            let vi = value as int;
            let ubi = upper_bound as int;
            let mi = m as int;
            assert(q as int <= mi) by (nonlinear_arith)
                requires
                    q as int == (vi * mi + ubi / 2) / ubi,
                    0 <= vi < ubi,
                    ubi > 0,
                    mi >= 1,
            ;
            if vi == 0 {
                assert(vi * mi == 0) by (nonlinear_arith)
                    requires
                        vi == 0,
                ;
                assert(q as int == (ubi / 2) / ubi);
                assert((ubi / 2) / ubi == 0) by (nonlinear_arith)
                    requires
                        ubi > 0,
                ;
            }
        }
        q as u8
    }
}

/// Reconstructs the fixed-point value a code stands for.
pub fn dequantize(code: u8, upper_bound: u64, bits: u8) -> (r: u64)
    requires
        1 <= bits <= 8,
        upper_bound > 0,
        upper_bound <= FX_VALUE_MAX,
        code as int <= spec_max_code(bits),
    ensures
        r as int == spec_dequantize(code as int, upper_bound as int, bits),
        r <= upper_bound,
{
    let m = max_code(bits);
    proof {
        assert((code as u64) * upper_bound <= 255 * FX_VALUE_MAX) by (nonlinear_arith)
            requires
                code <= 255,
                upper_bound <= FX_VALUE_MAX,
        ;
    }
    let r = (code as u64) * upper_bound / (m as u64);
    proof {
        let ci = code as int;
        let ubi = upper_bound as int;
        let mi = m as int;
        assert(r as int <= ubi) by (nonlinear_arith)
            requires
                r as int == ci * ubi / mi,
                0 <= ci <= mi,
                mi >= 1,
                ubi > 0,
        ;
    }
    r
}

/// Round-trip bound: quantizing then dequantizing moves a value by at
/// most half a quantization step plus one fixed-point unit. Scaled by
/// the code count `m = (1 << bits) - 1`, the error is at most
/// `upper_bound / 2 + m`: the reconstruction is within
/// `upper_bound / (1 << bits)` of the input value up to the fixed-point
/// grain.
pub proof fn lemma_quantize_round_trip(value: int, upper_bound: int, bits: u8)
    requires
        1 <= bits <= 8,
        upper_bound > 0,
        0 <= value <= upper_bound,
    ensures
        ({
            let m = spec_max_code(bits);
            let d = spec_dequantize(spec_quantize(value, upper_bound, bits), upper_bound, bits);
            &&& (d - value) * m <= upper_bound / 2 + m
            &&& (value - d) * m <= upper_bound / 2 + m
        }),
{
    let m = spec_max_code(bits);
    assert(1u64 <= (1u64 << (bits as u64)) - 1 <= 255u64) by (bit_vector)
        requires
            1 <= bits <= 8,
    ;
    assert(1 <= m <= 255);
    let q = spec_quantize(value, upper_bound, bits);
    let d = spec_dequantize(q, upper_bound, bits);
    if value >= upper_bound {
        assert(q == m);
        assert(m * upper_bound / m == upper_bound) by (nonlinear_arith)
            requires
                m >= 1,
                upper_bound > 0,
        ;
        assert(d == value);
        assert((d - value) * m == 0) by (nonlinear_arith)
            requires
                d == value,
        ;
        assert((value - d) * m == 0) by (nonlinear_arith)
            requires
                d == value,
        ;
    } else if value <= 0 {
        assert(q == 0);
        assert(d == 0 * upper_bound / m);
        assert(0 * upper_bound == 0) by (nonlinear_arith);
        assert(d == 0);
        assert(value == 0);
        assert((d - value) * m == 0) by (nonlinear_arith)
            requires
                d == value,
        ;
        assert((value - d) * m == 0) by (nonlinear_arith)
            requires
                d == value,
        ;
    } else {
        let h = upper_bound / 2;
        assert(q == (value * m + h) / upper_bound);
        assert(q * upper_bound <= value * m + h < q * upper_bound + upper_bound)
            by (nonlinear_arith)
            requires
                q == (value * m + h) / upper_bound,
                upper_bound > 0,
                value > 0,
                m >= 1,
                h == upper_bound / 2,
        ;
        assert(q >= 0) by (nonlinear_arith)
            requires
                q == (value * m + h) / upper_bound,
                value > 0,
                m >= 1,
                h >= 0,
                upper_bound > 0,
        ;
        assert(d * m <= q * upper_bound < d * m + m) by (nonlinear_arith)
            requires
                d == q * upper_bound / m,
                m >= 1,
                q >= 0,
                upper_bound > 0,
        ;
        // upper side: d * m <= q * upper_bound <= value * m + h
        assert((d - value) * m <= h) by (nonlinear_arith)
            requires
                d * m <= value * m + h,
        ;
        assert((d - value) * m <= upper_bound / 2 + m);
        // lower side: value * m + h < q * upper_bound + upper_bound <= d * m + m + upper_bound
        assert((value - d) * m < m + upper_bound - h) by (nonlinear_arith)
            requires
                value * m + h < d * m + m + upper_bound,
        ;
        assert(upper_bound - h <= h + 1) by (nonlinear_arith)
            requires
                h == upper_bound / 2,
                upper_bound > 0,
        ;
        assert((value - d) * m <= upper_bound / 2 + m);
    }
}

} // verus!
