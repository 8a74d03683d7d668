//! Averaging of sampled values, and the coverage test against the
//! x-files-factor. Values travel as IEEE-754 double bit patterns. The
//! two machine-arithmetic steps of an average (add, divide) and the
//! integer-to-double conversion are trusted, named operations; the
//! folding, the counting and the exact threshold comparison around them
//! are verified integer code.

use vstd::prelude::*;
use vstd::arithmetic::power2::{
    pow2, lemma_pow2_adds, lemma_pow2_pos, lemma_pow2_strictly_increases, lemma2_to64,
};
use byteorder::ByteOrder;

verus! {

broadcast use vstd::std_specs::vec::group_vec_axioms;

/// The bit pattern of the IEEE-754 double sum of the two doubles whose
/// bit patterns are given.
pub uninterp spec fn spec_add_bits(a: u64, b: u64) -> u64;

/// The bit pattern of the IEEE-754 double quotient of the two doubles
/// whose bit patterns are given.
pub uninterp spec fn spec_div_bits(a: u64, b: u64) -> u64;

/// The bit pattern of the double that the machine's u64-to-double
/// conversion (round to nearest) gives for `n`.
pub uninterp spec fn spec_double_of_int(n: u64) -> u64;

/// Relies on IEEE-754 double addition, a function of the operand bits
/// alone; byteorder's `write_u64`/`read_f64` and `write_f64`/`read_u64`
/// pairs move between a bit pattern and the double it encodes.
#[verifier::external_body]
fn add_bits(a: u64, b: u64) -> (r: u64)
    ensures
        r == spec_add_bits(a, b),
{
    let mut ab = [0u8; 8];
    let mut bb = [0u8; 8];
    byteorder::BigEndian::write_u64(&mut ab, a);
    byteorder::BigEndian::write_u64(&mut bb, b);
    let s = byteorder::BigEndian::read_f64(&ab) + byteorder::BigEndian::read_f64(&bb);
    let mut sb = [0u8; 8];
    byteorder::BigEndian::write_f64(&mut sb, s);
    byteorder::BigEndian::read_u64(&sb)
}

/// Relies on IEEE-754 double division, a function of the operand bits
/// alone; byteorder converts between bit patterns and values as above.
#[verifier::external_body]
fn div_bits(a: u64, b: u64) -> (r: u64)
    ensures
        r == spec_div_bits(a, b),
{
    let mut ab = [0u8; 8];
    let mut bb = [0u8; 8];
    byteorder::BigEndian::write_u64(&mut ab, a);
    byteorder::BigEndian::write_u64(&mut bb, b);
    let q = byteorder::BigEndian::read_f64(&ab) / byteorder::BigEndian::read_f64(&bb);
    let mut qb = [0u8; 8];
    byteorder::BigEndian::write_f64(&mut qb, q);
    byteorder::BigEndian::read_u64(&qb)
}

/// Relies on the machine's unsigned-to-double conversion, a function of
/// `n` alone; byteorder's `write_f64`/`read_u64` pair yields its bits.
#[verifier::external_body]
fn double_of_int(n: u64) -> (r: u64)
    ensures
        r == spec_double_of_int(n),
{
    let mut b = [0u8; 8];
    byteorder::BigEndian::write_f64(&mut b, n as _);
    byteorder::BigEndian::read_u64(&b)
}

/// The bit pattern of the left-to-right double sum of `vals`, folded
/// from positive zero, exactly as the aggregation path adds a window.
pub open spec fn spec_sum_bits(vals: Seq<u64>) -> u64
    decreases vals.len(),
{
    if vals.len() == 0 {
        0u64
    } else {
        spec_add_bits(spec_sum_bits(vals.drop_last()), vals.last())
    }
}

/// The bit pattern of the arithmetic mean of `vals`: their folded sum
/// divided by their count.
pub open spec fn spec_mean_bits(vals: Seq<u64>) -> u64 {
    spec_div_bits(spec_sum_bits(vals), spec_double_of_int(vals.len() as u64))
}

/// Fold the values left to right from zero and divide by the count.
pub fn mean_bits(vals: &Vec<u64>) -> (r: u64)
    requires
        vals@.len() >= 1,
    ensures
        r == spec_mean_bits(vals@),
{
    let mut acc: u64 = 0;
    let n: usize = vals.len();
    let mut i: usize = 0;
    while i < n
        invariant
            0 <= i <= n,
            n == vals@.len(),
            acc == spec_sum_bits(vals@.take(i as int)),
        decreases n - i,
    {
        acc = add_bits(acc, vals[i]);
        proof {
            assert(vals@.take(i as int + 1).drop_last() =~= vals@.take(i as int));
            assert(vals@.take(i as int + 1).last() == vals@[i as int]);
        }
        i = i + 1;
    }
    proof {
        assert(vals@.take(n as int) =~= vals@);
    }
    div_bits(acc, double_of_int(n as u64))
}

pub open spec fn spec_xff_sign(bits: u32) -> bool {
    (bits >> 31) == 1
}

pub open spec fn spec_xff_exp(bits: u32) -> int {
    ((bits >> 23) & 0xff) as int
}

pub open spec fn spec_xff_frac(bits: u32) -> int {
    (bits & 0x7f_ffff) as int
}

/// Dyadic mantissa of a finite stored threshold: its exact value is
/// `m * 2^(e - 150)` with `m` this function and `e` the one below.
pub open spec fn spec_xff_m(bits: u32) -> int {
    if spec_xff_exp(bits) == 0 {
        2 * spec_xff_frac(bits)
    } else {
        0x80_0000 + spec_xff_frac(bits)
    }
}

pub open spec fn spec_xff_e(bits: u32) -> int {
    if spec_xff_exp(bits) == 0 {
        0
    } else {
        spec_xff_exp(bits)
    }
}

/// Whether the coverage `kept / needed` lies strictly below the
/// threshold stored as the 32-bit float pattern `bits`. Every finite
/// float is an exact dyadic rational, so the comparison is exact integer
/// arithmetic; a NaN threshold compares below nothing, and a negative or
/// infinite one is below or above every coverage.
pub open spec fn spec_coverage_below(kept: int, needed: int, bits: u32) -> bool {
    if spec_xff_exp(bits) == 255 {
        spec_xff_frac(bits) == 0 && !spec_xff_sign(bits)
    } else if spec_xff_sign(bits) {
        false
    } else {
        kept * pow2(150) < spec_xff_m(bits) * pow2(spec_xff_e(bits) as nat) * needed
    }
}

fn pow2_exec(s: u32) -> (p: u128)
    requires
        s <= 56,
    ensures
        p as int == pow2(s as nat),
{
    let mut p: u128 = 1;
    let mut i: u32 = 0;
    proof {
        lemma2_to64();
    }
    while i < s
        invariant
            0 <= i <= s <= 56,
            p as int == pow2(i as nat),
            p <= 0x100_0000_0000_0000u128,
        decreases s - i,
    {
        proof {
            lemma_pow2_adds(i as nat, 1);
            lemma2_to64();
            vstd::arithmetic::power2::lemma2_to64_rest();
            if i as nat + 1 < 56 {
                lemma_pow2_strictly_increases(i as nat + 1, 56);
            }
        }
        p = p * 2;
        i = i + 1;
    }
    p
}

/// Decide `kept / needed < xff` exactly, over the raw float bits of the
/// stored x-files-factor.
#[verifier::rlimit(50)]
pub fn coverage_below(kept: u64, needed: u64, xff_bits: u32) -> (r: bool)
    requires
        1 <= needed <= 0xFFFF_FFFFu64,
        kept <= needed,
    ensures
        r == spec_coverage_below(kept as int, needed as int, xff_bits),
{
    let sign: bool = (xff_bits >> 31) == 1;
    let exp: u32 = (xff_bits >> 23) & 0xff;
    let frac: u32 = xff_bits & 0x7f_ffff;
    if exp == 255 {
        return frac == 0 && !sign;
    }
    if sign {
        return false;
    }
    let m: u64 = if exp == 0 {
        2 * (frac as u64)
    } else {
        0x80_0000 + (frac as u64)
    };
    let e: u32 = if exp == 0 {
        0
    } else {
        exp
    };
    proof {
        assert(frac < 0x80_0000u32) by (bit_vector)
            requires
                frac == xff_bits & 0x7f_ffff,
        ;
        assert(exp < 255u32) by (bit_vector)
            requires
                exp == (xff_bits >> 23) & 0xff,
                exp != 255u32,
        ;
        assert(m == spec_xff_m(xff_bits));
        assert(e == spec_xff_e(xff_bits));
        assert(m < 0x100_0000);
        assert(e <= 254);
    }
    let ghost ki = kept as int;
    let ghost ni = needed as int;
    let ghost mi = m as int;
    let ghost ei = e as nat;
    if m == 0 {
        proof {
            lemma_pow2_pos(ei);
            assert(ki * pow2(150) >= 0) by (nonlinear_arith)
                requires
                    ki >= 0,
            {
            }
            assert(mi * pow2(ei) * ni == 0) by (nonlinear_arith)
                requires
                    mi == 0,
            {
            }
        }
        return false;
    }
    if kept == 0 {
        proof {
            lemma_pow2_pos(ei);
            assert(mi * pow2(ei) * ni >= 1) by (nonlinear_arith)
                requires
                    mi >= 1,
                    pow2(ei) >= 1,
                    ni >= 1,
            {
            }
        }
        return true;
    }
    if e < 94 {
        // the threshold is below any non-zero coverage: its numerator
        // times any needed stays under 2^149, while kept * 2^150 is at
        // least 2^150
        proof {
            lemma_pow2_pos(ei);
            lemma_pow2_strictly_increases(ei, 94);
            lemma_pow2_adds(24, 94);
            lemma_pow2_adds(118, 32);
            lemma_pow2_strictly_increases(149, 150);
            lemma2_to64();
            assert(mi * pow2(ei) * ni < pow2(24) * pow2(94) * pow2(32)) by (nonlinear_arith)
                requires
                    0 < mi < pow2(24),
                    0 < pow2(ei) < pow2(94),
                    0 < ni < pow2(32),
            {
            }
            assert(ki * pow2(150) >= pow2(150)) by (nonlinear_arith)
                requires
                    ki >= 1,
                    pow2(150) >= 0,
            {
            }
            assert(pow2(24) * pow2(94) * pow2(32) == pow2(150)) by {
                lemma_pow2_adds(24, 94);
                lemma_pow2_adds(118, 32);
            }
        }
        return false;
    }
    if e > 150 {
        // the threshold exceeds 1, and coverage never does
        proof {
            lemma_pow2_adds(150, (ei - 150) as nat);
            lemma_pow2_pos((ei - 150) as nat);
            lemma_pow2_pos(150);
            lemma2_to64();
            if ei - 150 > 1 {
                lemma_pow2_strictly_increases(1, (ei - 150) as nat);
            }
            assert(ki * pow2(150) < mi * (pow2(150) * pow2((ei - 150) as nat)) * ni)
                by (nonlinear_arith)
                requires
                    1 <= ki <= ni,
                    mi >= 0x80_0000,
                    pow2((ei - 150) as nat) >= 2,
                    pow2(150) >= 1,
            {
            }
        }
        return true;
    }
    let shift: u32 = 150 - e;
    let p: u128 = pow2_exec(shift);
    proof {
        vstd::arithmetic::power2::lemma2_to64_rest();
        lemma_pow2_strictly_increases(shift as nat, 57);
        assert((kept as int) * (p as int) < 0x1_0000_0000 * 0x200_0000_0000_0000)
            by (nonlinear_arith)
            requires
                0 <= (kept as int) < 0x1_0000_0000,
                0 <= (p as int) < 0x200_0000_0000_0000,
        {
        }
        assert((m as int) * (needed as int) < 0x100_0000 * 0x1_0000_0000) by (nonlinear_arith)
            requires
                0 <= (m as int) < 0x100_0000,
                0 <= (needed as int) < 0x1_0000_0000,
        {
        }
    }
    let lhs: u128 = (kept as u128) * p;
    let rhs: u128 = (m as u128) * (needed as u128);
    proof {
        lemma_pow2_adds(shift as nat, ei);
        assert(ki * (pow2(shift as nat) * pow2(ei)) == (ki * pow2(shift as nat)) * pow2(ei))
            by (nonlinear_arith)
        {
        }
        assert((mi * ni) * pow2(ei) == mi * pow2(ei) * ni) by (nonlinear_arith)
        {
        }
        lemma_pow2_pos(ei);
        assert((ki * pow2(shift as nat) < mi * ni) == ((ki * pow2(shift as nat)) * pow2(ei) < (mi
            * ni) * pow2(ei))) by (nonlinear_arith)
            requires
                pow2(ei) >= 1,
        {
        }
    }
    lhs < rhs
}

} // verus!
