//! Fixed-point arithmetic helpers: truncating signed division, saturation,
//! the signed power-curve transform applied at ingest, and an integer
//! square root used for vector magnitudes.

use vstd::prelude::*;

verus! {

/// Truncating division (the sign of a quotient is dropped toward zero),
/// for a positive divisor. Matches hardware signed division.
pub open spec fn div_trunc(a: int, b: int) -> int
    recommends
        b > 0,
{
    if a >= 0 {
        a / b
    } else {
        -((-a) / b)
    }
}

/// Truncating division on `i128`, divisor positive.
pub fn div_trunc_i128(a: i128, b: i128) -> (r: i128)
    requires
        b > 0,
        a > i128::MIN,
    ensures
        r == div_trunc(a as int, b as int),
{
    if a >= 0 {
        let q: u128 = (a as u128) / (b as u128);
        q as i128
    } else {
        let m: i128 = -a;
        let q: u128 = (m as u128) / (b as u128);
        assert(q <= m as u128);
        -(q as i128)
    }
}

/// Saturation of a value into `[-bound, bound]`.
pub open spec fn clamp(x: int, bound: int) -> int {
    if x > bound {
        bound
    } else if x < -bound {
        -bound
    } else {
        x
    }
}

/// Fixed-point power of a non-negative magnitude `m` (scale `SCALE`),
/// saturating at `VMAX` after each multiplication step.
pub open spec fn mag_pow(m: int, e: nat) -> int
    decreases e,
{
    if e == 0 {
        crate::SCALE as int
    } else {
        let p = mag_pow(m, (e - 1) as nat) * m / (crate::SCALE as int);
        if p > crate::VMAX as int {
            crate::VMAX as int
        } else {
            p
        }
    }
}

/// The signed power curve applied to fixed-point values at ingest:
/// `sign(x) * |x|^e`, saturating at `VMAX`. A zero input stays zero for
/// every exponent, matching `sign(0) == 0`.
pub open spec fn pow_fixed(x: int, e: nat) -> int {
    if x > 0 {
        mag_pow(x, e)
    } else if x < 0 {
        -mag_pow(-x, e)
    } else {
        0
    }
}

proof fn lemma_mag_pow_bounds(m: int, e: nat)
    requires
        0 <= m <= crate::VMAX as int,
    ensures
        0 <= mag_pow(m, e) <= crate::VMAX as int,
    decreases e,
{
    if e > 0 {
        lemma_mag_pow_bounds(m, (e - 1) as nat);
        let p = mag_pow(m, (e - 1) as nat);
        assert(p * m >= 0) by (nonlinear_arith)
            requires
                p >= 0 && m >= 0,
        ;
        assert(p * m / (crate::SCALE as int) >= 0) by {
            vstd::arithmetic::div_mod::lemma_div_pos_is_pos(p * m, crate::SCALE as int);
        }
    }
}

/// The power-curve transform on a fixed-point value.
pub fn pow_transform(x: i64, e: u32) -> (r: i64)
    requires
        -(crate::VMAX as int) <= x <= crate::VMAX as int,
    ensures
        r == pow_fixed(x as int, e as nat),
        -(crate::VMAX as int) <= r <= crate::VMAX as int,
{
    proof {
        if x > 0 {
            lemma_mag_pow_bounds(x as int, e as nat);
        } else if x < 0 {
            lemma_mag_pow_bounds(-(x as int), e as nat);
        }
    }
    if x == 0 {
        return 0;
    }
    let m: u128 = if x > 0 {
        x as u128
    } else {
        (-x) as u128
    };
    let mut acc: u128 = crate::SCALE as u128;
    let mut i: u32 = 0;
    while i < e
        invariant
            m == if x as int > 0 {
                x as int
            } else {
                -(x as int)
            },
            0 < m <= crate::VMAX as u128,
            i <= e,
            acc == mag_pow(m as int, i as nat),
            0 <= acc <= crate::VMAX as u128,
        decreases e - i,
    {
        proof {
            assert(acc * m <= (crate::VMAX as int) * (crate::VMAX as int)) by (nonlinear_arith)
                requires
                    0 <= acc <= crate::VMAX as int && 0 <= m <= crate::VMAX as int,
            ;
        }
        acc = (acc * m) / (crate::SCALE as u128);
        if acc > crate::VMAX as u128 {
            acc = crate::VMAX as u128;
        }
        i = i + 1;
    }
    if x > 0 {
        acc as i64
    } else {
        -(acc as i64)
    }
}

/// Integer square root: the largest `r` with `r * r <= x`.
pub fn isqrt_u128(x: u128) -> (r: u128)
    ensures
        r * r <= x < (r + 1) * (r + 1),
{
    if x == 0 {
        return 0;
    }
    let mut lo: u128 = 0;
    let mut hi: u128 = 0x1_0000_0000_0000_0000;
    proof {
        assert(hi * hi > x) by (nonlinear_arith)
            requires
                hi == 0x1_0000_0000_0000_0000u128 && x <= u128::MAX,
        ;
    }
    while lo + 1 < hi
        invariant
            lo < hi <= 0x1_0000_0000_0000_0000,
            lo * lo <= x,
            hi * hi > x,
        decreases hi - lo,
    {
        let mid: u128 = lo + (hi - lo) / 2;
        assert(lo < mid < hi);
        proof {
            assert(mid * mid < 0x1_0000_0000_0000_0000u128 * 0x1_0000_0000_0000_0000u128) by (nonlinear_arith)
                requires
                    0 < mid < 0x1_0000_0000_0000_0000u128,
            ;
            vstd::arithmetic::div_mod::lemma_fundamental_div_mod(x as int, mid as int);
            vstd::arithmetic::div_mod::lemma_mod_bound(x as int, mid as int);
        }
        if mid <= x / mid {
            proof {
                vstd::arithmetic::mul::lemma_mul_inequality(
                    mid as int,
                    (x as int) / (mid as int),
                    mid as int,
                );
            }
            lo = mid;
        } else {
            proof {
                let q = (x as int) / (mid as int);
                vstd::arithmetic::mul::lemma_mul_inequality(q + 1, mid as int, mid as int);
                assert((q + 1) * (mid as int) == q * (mid as int) + mid as int) by (nonlinear_arith);
            }
            hi = mid;
        }
    }
    lo
}

/// If `r * r <= x` and `x < b * b` then `r < b`: turns a bound on a square
/// into a bound on its root.
pub proof fn lemma_root_bound(r: int, x: int, b: int)
    requires
        r >= 0,
        b >= 0,
        r * r <= x,
        x < b * b,
    ensures
        r < b,
{
    if r >= b {
        assert(r * r >= b * b) by (nonlinear_arith)
            requires
                r >= b >= 0,
        ;
    }
}

} // verus!
