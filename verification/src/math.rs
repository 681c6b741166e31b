//! Fixed-point arithmetic for the simulation: sign-symmetric scaled
//! division, wrap-around addition on a modulus, and a polynomial
//! approximation of sine and cosine on tenth-degree angles.

use vstd::prelude::*;
use vstd::arithmetic::div_mod::{lemma_small_mod, lemma_mod_multiples_vanish};

verus! {

/// `v * f / d`, dividing away from the magnitude and symmetrically
/// around zero: the result for `-v` is the negation of the result for
/// `v`. (Euclidean division of a negative product would round towards
/// negative infinity instead.)
pub open spec fn scale_div(v: int, f: int, d: int) -> int {
    if v >= 0 {
        (v * f) / d
    } else {
        -(((-v) * f) / d)
    }
}

/// Computes [`scale_div`] on machine integers.
pub fn scale_signed(v: i64, f: u64, d: u64) -> (r: i64)
    requires
        d > 0,
        v > i64::MIN,
        (if v >= 0 { v as int } else { -(v as int) }) * f <= u64::MAX,
        (if v >= 0 { v as int } else { -(v as int) }) * f / (d as int) <= i64::MAX,
    ensures
        r == scale_div(v as int, f as int, d as int),
{
    if v >= 0 {
        let m: u64 = v as u64;
        ((m * f) / d) as i64
    } else {
        let m: u64 = (-v) as u64;
        -(((m * f) / d) as i64)
    }
}

/// Adds a signed offset to a point of `[0, m)` and wraps the sum back
/// into `[0, m)`; the result is exactly the Euclidean remainder of
/// `p + v`.
pub fn wrap_add(p: u64, v: i64, m: u64) -> (r: u64)
    requires
        0 < m <= i64::MAX,
        p < m,
        -(m as int) < v < m as int,
    ensures
        r == (p + v) % (m as int),
        r < m,
{
    if v >= 0 {
        let s: u64 = p + (v as u64);
        if s >= m {
            proof {
                lemma_mod_multiples_vanish(1, s - m, m as int);
                lemma_small_mod((s - m) as nat, m as nat);
            }
            s - m
        } else {
            proof {
                lemma_small_mod(s as nat, m as nat);
            }
            s
        }
    } else {
        let k: u64 = (-v) as u64;
        if k <= p {
            proof {
                lemma_small_mod((p - k) as nat, m as nat);
            }
            p - k
        } else {
            proof {
                lemma_mod_multiples_vanish(1, p as int - k as int, m as int);
                lemma_small_mod((p + m - k) as nat, m as nat);
            }
            p + m - k
        }
    }
}

/// A product of non-negative factors is bounded by the product of their
/// bounds.
pub proof fn lemma_mul_le(a: int, b: int, a_max: int, b_max: int)
    requires
        0 <= a <= a_max,
        0 <= b <= b_max,
    ensures
        a * b <= a_max * b_max,
{
    assert(a * b <= a_max * b_max) by (nonlinear_arith)
        requires
            0 <= a <= a_max,
            0 <= b <= b_max,
    ;
}

/// Sine of an angle in tenths of a degree, scaled by
/// [`crate::constants::TRIG_SCALE`]: the parabola
/// `a * (1800 - a) / 810` on the first half turn, mirrored and negated
/// on the second.
pub open spec fn sin_milli(a: int) -> int {
    if a < 1800 {
        (a * (1800 - a)) / 810
    } else {
        -(((a - 1800) * (3600 - a)) / 810)
    }
}

/// Cosine of an angle in tenths of a degree, scaled like [`sin_milli`]:
/// the sine a quarter turn ahead.
pub open spec fn cos_milli(a: int) -> int {
    sin_milli((a + 900) % 3600)
}

/// The scaled sine stays within the trigonometric scale.
proof fn lemma_half_wave_bound(a: int)
    requires
        0 <= a <= 1800,
    ensures
        0 <= a * (1800 - a) <= 810_000,
{
    assert(0 <= a * (1800 - a) <= 810_000) by (nonlinear_arith)
        requires
            0 <= a <= 1800,
    {
        assert(a * (1800 - a) == 810_000 - (900 - a) * (900 - a));
        assert((900 - a) * (900 - a) >= 0);
        assert((900 - a) * (900 - a) <= 810_000);
    }
}

/// The scaled sine of every angle lies in `[-1000, 1000]`.
pub proof fn lemma_sin_milli_bound(a: int)
    requires
        0 <= a < 3600,
    ensures
        -1000 <= sin_milli(a) <= 1000,
{
    if a < 1800 {
        lemma_half_wave_bound(a);
    } else {
        lemma_half_wave_bound(3600 - a);
        assert((a - 1800) * (3600 - a) == (3600 - a) * (1800 - (3600 - a))) by (nonlinear_arith);
    }
}

/// Computes [`sin_milli`] on machine integers.
pub fn sin_lookup(a: u32) -> (r: i64)
    requires
        a < 3600,
    ensures
        r == sin_milli(a as int),
        -1000 <= r <= 1000,
{
    proof {
        lemma_sin_milli_bound(a as int);
    }
    if a < 1800 {
        proof {
            lemma_half_wave_bound(a as int);
        }
        (((a as u64) * ((1800 - a) as u64)) / 810) as i64
    } else {
        proof {
            lemma_half_wave_bound(3600 - a as int);
            assert((a - 1800) * (3600 - a as int) == (3600 - a as int) * (1800 - (3600 - a as int)))
                by (nonlinear_arith);
        }
        -(((((a - 1800) as u64) * ((3600 - a) as u64)) / 810) as i64)
    }
}

/// Computes [`cos_milli`] on machine integers.
pub fn cos_lookup(a: u32) -> (r: i64)
    requires
        a < 3600,
    ensures
        r == cos_milli(a as int),
        -1000 <= r <= 1000,
{
    let shifted: u32 = (a + 900) % 3600;
    proof {
        lemma_sin_milli_bound(shifted as int);
    }
    sin_lookup(shifted)
}

} // verus!
