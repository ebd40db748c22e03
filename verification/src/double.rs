//! Double-precision numbers by their bits: integrality, truncation and order.

use vstd::arithmetic::div_mod::lemma_small_mod;
use vstd::arithmetic::power2::{lemma2_to64, lemma2_to64_rest, lemma_pow2_strictly_increases, pow2};
use vstd::bits::{lemma_u64_shl_is_mul, lemma_u64_shr_is_div};
use vstd::prelude::*;

verus! {

/// The biased exponent.
pub open spec fn exponent(bits: u64) -> u64 {
    (bits / 0x10_0000_0000_0000) % 2048
}

/// The significand: the fraction, with the leading one of a normal number.
pub open spec fn significand(bits: u64) -> nat {
    if exponent(bits) == 0 {
        (bits % 0x10_0000_0000_0000) as nat
    } else {
        (0x10_0000_0000_0000 + bits % 0x10_0000_0000_0000) as nat
    }
}

/// Whether the sign is set.
pub open spec fn negative(bits: u64) -> bool {
    bits >= 0x8000_0000_0000_0000
}

/// Whether the number is neither infinite nor undefined.
pub open spec fn finite(bits: u64) -> bool {
    exponent(bits) != 2047
}

/// Whether the number is undefined.
pub open spec fn undefined(bits: u64) -> bool {
    exponent(bits) == 2047 && bits % 0x10_0000_0000_0000 != 0
}

/// The power of two by which the significand counts, offset by 1075.
pub open spec fn scale(bits: u64) -> nat {
    if exponent(bits) == 0 {
        1
    } else {
        exponent(bits) as nat
    }
}

/// The magnitude of a finite number, rounded toward zero.
pub open spec fn truncated(bits: u64) -> nat {
    if scale(bits) >= 1075 {
        significand(bits) * pow2((scale(bits) - 1075) as nat)
    } else {
        significand(bits) / pow2((1075 - scale(bits)) as nat)
    }
}

/// Whether the number is an integer.
pub open spec fn integral(bits: u64) -> bool {
    finite(bits) && (scale(bits) >= 1075 || significand(bits) % pow2(
        (1075 - scale(bits)) as nat,
    ) == 0)
}

/// The integer part of a finite number.
pub open spec fn integer_part(bits: u64) -> int {
    if negative(bits) {
        -truncated(bits)
    } else {
        truncated(bits) as int
    }
}

/// A number whose order is that of the doubles.
pub open spec fn rank(bits: u64) -> int {
    if negative(bits) {
        0x8000_0000_0000_0000 - bits
    } else {
        bits as int
    }
}

/// Whether one number is below another; nothing is below or above an undefined one.
pub open spec fn below(a: u64, b: u64) -> bool {
    !undefined(a) && !undefined(b) && rank(a) < rank(b)
}

/// Whether the number is zero, of either sign.
pub open spec fn zero(bits: u64) -> bool {
    bits == 0 || bits == 0x8000_0000_0000_0000
}

/// Decides [`zero`].
pub fn equals_zero(bits: u64) -> (r: bool)
    ensures
        r == zero(bits),
{
    bits == 0 || bits == 0x8000_0000_0000_0000
}

/// Decides [`below`].
pub fn less_than(a: u64, b: u64) -> (r: bool)
    ensures
        r == below(a, b),
{
    if is_undefined(a) || is_undefined(b) {
        return false;
    }
    let x: i128 = if a >= 0x8000_0000_0000_0000 {
        0x8000_0000_0000_0000i128 - a as i128
    } else {
        a as i128
    };
    let y: i128 = if b >= 0x8000_0000_0000_0000 {
        0x8000_0000_0000_0000i128 - b as i128
    } else {
        b as i128
    };
    x < y
}

/// Decides [`undefined`].
pub fn is_undefined(bits: u64) -> (r: bool)
    ensures
        r == undefined(bits),
{
    (bits / 0x10_0000_0000_0000) % 2048 == 2047 && bits % 0x10_0000_0000_0000 != 0
}

fn parts(bits: u64) -> (r: (u64, u64))
    ensures
        r.0 == significand(bits),
        r.1 == scale(bits),
        r.0 < 0x20_0000_0000_0000,
        r.1 < 2048,
        1 <= r.1,
        r.1 > 1 ==> r.0 >= 0x10_0000_0000_0000,
{
    let e: u64 = (bits / 0x10_0000_0000_0000) % 2048;
    let m: u64 = bits % 0x10_0000_0000_0000;
    if e == 0 {
        (m, 1)
    } else {
        (m + 0x10_0000_0000_0000, e)
    }
}

proof fn lemma_pow2_beyond(d: nat)
    requires
        d >= 53,
    ensures
        pow2(d) >= 0x20_0000_0000_0000,
{
    lemma2_to64();
    lemma2_to64_rest();
    if d > 53 {
        lemma_pow2_strictly_increases(53, d);
    }
}

proof fn lemma_pow2_shift(k: nat)
    requires
        k < 64,
    ensures
        0 < pow2(k) < 0x1_0000_0000_0000_0000,
{
    lemma2_to64();
    lemma2_to64_rest();
    if k > 0 {
        lemma_pow2_strictly_increases(0, k);
    }
    lemma_pow2_strictly_increases(k, 64);
}

/// Decides [`integral`].
pub fn is_integral(bits: u64) -> (r: bool)
    ensures
        r == integral(bits),
{
    if (bits / 0x10_0000_0000_0000) % 2048 == 2047 {
        return false;
    }
    let (sig, scale): (u64, u64) = parts(bits);
    if scale >= 1075 {
        return true;
    }
    let d: u64 = 1075 - scale;
    if d >= 53 {
        proof {
            lemma_pow2_beyond(d as nat);
            lemma_small_mod(sig as nat, pow2(d as nat));
        }
        return sig == 0;
    }
    let unit: u64 = 1u64 << d;
    proof {
        lemma_pow2_shift(d as nat);
        lemma_u64_shl_is_mul(1, d);
    }
    sig % unit == 0
}

/// The magnitude of a finite number, rounded toward zero and cut off at the
/// greatest 64-bit number.
pub fn whole(bits: u64) -> (r: u64)
    requires
        finite(bits),
    ensures
        truncated(bits) <= u64::MAX ==> r == truncated(bits),
        truncated(bits) > u64::MAX ==> r == u64::MAX,
{
    let (sig, scale): (u64, u64) = parts(bits);
    if scale >= 1075 {
        let k: u64 = scale - 1075;
        proof {
            lemma2_to64();
        }
        if k >= 12 {
            proof {
                if k > 12 {
                    lemma_pow2_strictly_increases(12, k as nat);
                }
                assert(sig * pow2(k as nat) >= 0x10_0000_0000_0000 * 0x1000) by (nonlinear_arith)
                    requires
                        sig >= 0x10_0000_0000_0000,
                        pow2(k as nat) >= 0x1000,
                ;
            }
            return u64::MAX;
        }
        proof {
            lemma_pow2_shift(k as nat);
            if k < 11 {
                lemma_pow2_strictly_increases(k as nat, 11);
            }
            assert(sig * pow2(k as nat) <= 0x1f_ffff_ffff_ffff * 0x800) by (nonlinear_arith)
                requires
                    sig <= 0x1f_ffff_ffff_ffff,
                    pow2(k as nat) <= 0x800,
            ;
            lemma_u64_shl_is_mul(sig, k);
        }
        return sig << k;
    }
    let d: u64 = 1075 - scale;
    if d >= 53 {
        proof {
            lemma_pow2_beyond(d as nat);
            vstd::arithmetic::div_mod::lemma_basic_div(sig as int, pow2(d as nat) as int);
        }
        return 0;
    }
    proof {
        lemma_u64_shr_is_div(sig, d);
        lemma_pow2_shift(d as nat);
        vstd::arithmetic::div_mod::lemma_div_is_ordered_by_denominator(
            sig as int,
            1,
            pow2(d as nat) as int,
        );
    }
    sig >> d
}

/// The number rounded toward zero and cut to the range from zero to `max`; an
/// undefined one gives zero.
pub open spec fn saturated(bits: u64, max: nat) -> nat {
    if undefined(bits) || negative(bits) {
        0
    } else if !finite(bits) || truncated(bits) > max {
        max
    } else {
        truncated(bits)
    }
}

/// Computes [`saturated`] for 64 bits.
pub fn to_u64(bits: u64) -> (r: u64)
    ensures
        r == saturated(bits, u64::MAX as nat),
{
    if is_undefined(bits) || bits >= 0x8000_0000_0000_0000 {
        0
    } else if (bits / 0x10_0000_0000_0000) % 2048 == 2047 {
        u64::MAX
    } else {
        whole(bits)
    }
}

/// Computes [`saturated`] for 32 bits.
pub fn to_u32(bits: u64) -> (r: u32)
    ensures
        r == saturated(bits, u32::MAX as nat),
{
    let v: u64 = to_u64(bits);
    if v > u32::MAX as u64 {
        u32::MAX
    } else {
        v as u32
    }
}

/// Computes [`saturated`] for sizes.
pub fn to_usize(bits: u64) -> (r: usize)
    ensures
        r == saturated(bits, usize::MAX as nat),
{
    let v: u64 = to_u64(bits);
    if v > usize::MAX as u64 {
        usize::MAX
    } else {
        v as usize
    }
}

/// The integer that the number is, where it is one from `low` to `high`.
pub open spec fn integer_within(bits: u64, low: int, high: int) -> Option<int> {
    if integral(bits) && low <= integer_part(bits) <= high {
        Some(integer_part(bits))
    } else {
        None
    }
}

/// Computes [`integer_within`] between unsigned bounds.
pub fn integer_between(bits: u64, low: u64, high: u64) -> (r: Option<u64>)
    ensures
        integer_within(bits, low as int, high as int) == (match r {
            Some(v) => Some(v as int),
            None => None,
        }),
{
    if !is_integral(bits) {
        return None;
    }
    let v: u64 = whole(bits);
    if v == u64::MAX {
        proof {
            lemma_whole_limit(bits);
        }
        return None;
    }
    if bits >= 0x8000_0000_0000_0000 && v != 0 {
        return None;
    }
    if v < low || v > high {
        None
    } else {
        Some(v)
    }
}

/// No double has the greatest 64-bit number as its magnitude.
proof fn lemma_whole_limit(bits: u64)
    requires
        finite(bits),
        truncated(bits) >= u64::MAX,
    ensures
        truncated(bits) > u64::MAX,
{
    if truncated(bits) == u64::MAX {
        let sig = significand(bits);
        lemma2_to64();
        if scale(bits) >= 1075 {
            let k = (scale(bits) - 1075) as nat;
            if k == 0 {
                assert(sig * pow2(k) == sig) by (nonlinear_arith)
                    requires
                        pow2(k) == 1,
                ;
            } else {
                lemma_pow2_strictly_increases(0, k);
                vstd::arithmetic::power2::lemma_pow2_unfold(k);
                let h = pow2((k - 1) as nat);
                assert(sig * (2 * h) == 2 * (sig * h)) by (nonlinear_arith);
                assert((2 * (sig * h)) % 2 == 0);
            }
        } else {
            let d = (1075 - scale(bits)) as nat;
            lemma_pow2_strictly_increases(0, d);
            vstd::arithmetic::div_mod::lemma_div_is_ordered_by_denominator(
                sig as int,
                1,
                pow2(d) as int,
            );
            vstd::arithmetic::div_mod::lemma_div_basics(sig as int);
        }
    }
}

/// An integer number cut to the range of signed 64-bit numbers.
pub open spec fn clamped(bits: u64) -> i64 {
    if integer_part(bits) > i64::MAX {
        i64::MAX
    } else if integer_part(bits) < i64::MIN {
        i64::MIN
    } else {
        integer_part(bits) as i64
    }
}

/// Computes [`clamped`].
pub fn to_i64(bits: u64) -> (r: i64)
    requires
        finite(bits),
    ensures
        r == clamped(bits),
{
    let v: u64 = whole(bits);
    if bits >= 0x8000_0000_0000_0000 {
        if v >= 0x8000_0000_0000_0000 {
            i64::MIN
        } else {
            -(v as i64)
        }
    } else if v > i64::MAX as u64 {
        i64::MAX
    } else {
        v as i64
    }
}

/// Whether an integer number lies in the range of signed 64-bit numbers.
pub open spec fn fits(bits: u64) -> bool {
    i64::MIN <= integer_part(bits) <= i64::MAX
}

/// Decides [`fits`].
pub fn in_i64(bits: u64) -> (r: bool)
    requires
        finite(bits),
    ensures
        r == fits(bits),
{
    let v: u64 = whole(bits);
    if bits >= 0x8000_0000_0000_0000 {
        v <= 0x8000_0000_0000_0000
    } else {
        v <= i64::MAX as u64
    }
}

} // verus!
