//! A verified binary32 square root on bit patterns.  A positive finite
//! input is scaled to an even power of two times an integer in
//! [2^46, 2^48), whose integer square root gives the 24-bit significand;
//! the remainder decides rounding to nearest (a tie is impossible, since
//! the square root of an integer is never exactly halfway between two
//! integers).  Special values follow IEEE-754: the square root of a NaN
//! or of a negative non-zero value is NaN, zeros and positive infinity
//! return themselves.

use vstd::prelude::*;
use vstd::arithmetic::power2::pow2;
use crate::bits::{
    QNAN_BITS, POS_INF_BITS, sign_field, exp_field, frac_field, is_zero_bits, is_nan_bits,
    is_inf_bits, significand_of, ulp_exp_of,
};

verus! {

/// The integer square root: the greatest `r` with `r * r <= n`.
pub open spec fn isqrt_spec(n: nat) -> nat
    decreases n,
{
    if n == 0 {
        0
    } else {
        let h = 2 * isqrt_spec(n / 4);
        if (h + 1) * (h + 1) <= n {
            h + 1
        } else {
            h
        }
    }
}

/// `isqrt_spec` really is the integer square root.
pub proof fn lemma_isqrt_spec(n: nat)
    ensures
        isqrt_spec(n) * isqrt_spec(n) <= n,
        n < (isqrt_spec(n) + 1) * (isqrt_spec(n) + 1),
    decreases n,
{
    if n == 0 {
        assert(isqrt_spec(0) == 0);
        assert(n < (isqrt_spec(n) + 1) * (isqrt_spec(n) + 1)) by (nonlinear_arith)
            requires
                n == 0,
                isqrt_spec(n) == 0,
        {}
    } else {
        lemma_isqrt_spec(n / 4);
        let q = isqrt_spec(n / 4);
        let d = n / 4;
        let h = 2 * q;
        vstd::arithmetic::div_mod::lemma_fundamental_div_mod(n as int, 4);
        assert(n == 4 * d + n % 4);
        assert(h * h <= n) by (nonlinear_arith)
            requires
                q * q <= d,
                h == 2 * q,
                n == 4 * d + n % 4,
                n % 4 >= 0,
        {}
        assert(n < (h + 2) * (h + 2)) by (nonlinear_arith)
            requires
                d < (q + 1) * (q + 1),
                h == 2 * q,
                n == 4 * d + n % 4,
                n % 4 < 4,
        {}
        if (h + 1) * (h + 1) <= n {
            assert(isqrt_spec(n) == h + 1);
            assert(isqrt_spec(n) * isqrt_spec(n) <= n) by (nonlinear_arith)
                requires
                    isqrt_spec(n) == h + 1,
                    (h + 1) * (h + 1) <= n,
            {}
            assert(n < (isqrt_spec(n) + 1) * (isqrt_spec(n) + 1)) by (nonlinear_arith)
                requires
                    isqrt_spec(n) == h + 1,
                    n < (h + 2) * (h + 2),
            {}
        } else {
            assert(isqrt_spec(n) == h);
            assert(isqrt_spec(n) * isqrt_spec(n) <= n) by (nonlinear_arith)
                requires
                    isqrt_spec(n) == h,
                    h * h <= n,
            {}
            assert(n < (isqrt_spec(n) + 1) * (isqrt_spec(n) + 1)) by (nonlinear_arith)
                requires
                    isqrt_spec(n) == h,
                    !((h + 1) * (h + 1) <= n),
            {}
        }
    }
}

/// Two integers that both satisfy the square-root inequalities are equal.
proof fn lemma_isqrt_unique(n: nat, a: nat, b: nat)
    requires
        a * a <= n < (a + 1) * (a + 1),
        b * b <= n < (b + 1) * (b + 1),
    ensures
        a == b,
{
    assert(a == b) by (nonlinear_arith)
        requires
            a * a <= n < (a + 1) * (a + 1),
            b * b <= n < (b + 1) * (b + 1),
    {}
}

/// The integer square root of an integer below 2^48, by the classical
/// recursion on `n / 4`.
pub fn isqrt48(n: u64) -> (r: u64)
    requires
        n < 0x1_0000_0000_0000,
    ensures
        r * r <= n,
        n < (r + 1) * (r + 1),
        r == isqrt_spec(n as nat),
    decreases n,
{
    if n == 0 {
        0
    } else {
        let q = isqrt48(n / 4);
        proof {
            let ghost d: nat = (n / 4) as nat;
            assert(q < 0x80_0000) by (nonlinear_arith)
                requires
                    q * q <= d,
                    d < 0x4000_0000_0000,
            {}
            vstd::arithmetic::div_mod::lemma_fundamental_div_mod(n as int, 4);
            assert(n == 4 * d + n % 4);
            assert((2 * q) * (2 * q) <= n) by (nonlinear_arith)
                requires
                    q * q <= d,
                    n == 4 * d + n % 4,
                    n % 4 >= 0,
            {}
            assert(n < (2 * q + 2) * (2 * q + 2)) by (nonlinear_arith)
                requires
                    d < (q + 1) * (q + 1),
                    n == 4 * d + n % 4,
                    n % 4 < 4,
            {}
            assert((2 * q + 1) * (2 * q + 1) < 0x4_0000_0000_0000) by (nonlinear_arith)
                requires
                    q < 0x80_0000,
            {}
        }
        let h = 2 * q;
        if (h + 1) * (h + 1) <= n {
            h + 1
        } else {
            h
        }
    }
}

/// Doubles `m`, lowering `t` in step, until `m` lies in [2^46, 2^48) and
/// `t` is even, so that `m * 2^t` is unchanged and `t / 2` is exact.
pub open spec fn scaled(m: nat, t: int) -> (nat, int)
    decreases 0x2_0000_0000_0000 - m,
{
    if m == 0 || m >= 0x1_0000_0000_0000 {
        (m, t)
    } else if m < 0x4000_0000_0000 {
        scaled(2 * m, t - 1)
    } else if t % 2 != 0 {
        scaled(2 * m, t - 1)
    } else {
        (m, t)
    }
}

/// What `scaled` yields: a value in [2^46, 2^48), an even exponent no
/// larger than the one given, and the same product `m * 2^t`.
pub proof fn lemma_scaled_props(m: nat, t: int)
    requires
        1 <= m,
        m < 0x8000_0000_0000 || (m < 0x1_0000_0000_0000 && t % 2 == 0),
    ensures
        ({
            let (mm, tt) = scaled(m, t);
            &&& 0x4000_0000_0000 <= mm < 0x1_0000_0000_0000
            &&& tt % 2 == 0
            &&& tt <= t
            &&& mm == m * pow2((t - tt) as nat)
        }),
    decreases 0x2_0000_0000_0000 - m,
{
    vstd::arithmetic::power2::lemma2_to64();
    if m >= 0x4000_0000_0000 && (m >= 0x1_0000_0000_0000 || t % 2 == 0) {
        assert(scaled(m, t) == (m, t));
        assert(m == m * pow2(0)) by (nonlinear_arith)
            requires
                pow2(0) == 1,
        {}
    } else {
        lemma_scaled_props(2 * m, t - 1);
        let (mm, tt) = scaled(2 * m, t - 1);
        assert(scaled(m, t) == scaled(2 * m, t - 1));
        assert(mm == (2 * m) * pow2((t - 1 - tt) as nat));
        vstd::arithmetic::power2::lemma_pow2_adds(1, (t - 1 - tt) as nat);
        assert(pow2((t - tt) as nat) == 2 * pow2((t - 1 - tt) as nat));
        assert(m * pow2((t - tt) as nat) == (2 * m) * pow2((t - 1 - tt) as nat))
            by (nonlinear_arith)
            requires
                pow2((t - tt) as nat) == 2 * pow2((t - 1 - tt) as nat),
        {}
    }
}

/// The square root of a binary32 bit pattern, rounded to nearest.
///
/// NaN inputs and negative non-zero inputs yield the canonical quiet NaN;
/// zeros and positive infinity yield themselves.  A positive finite input
/// `q * 2^e` is rescaled to `M * 2^T` with `M` in [2^46, 2^48) and `T`
/// even; the result's significand is the integer square root of `M`,
/// rounded up exactly when `M >= s*(s+1) + 1` (nearest, no ties), and the
/// result's exponent is `T / 2`.
pub open spec fn sqrt_spec(x: u32) -> u32 {
    if is_nan_bits(x) {
        QNAN_BITS
    } else if is_zero_bits(x) {
        x
    } else if sign_field(x) == 1 {
        QNAN_BITS
    } else if is_inf_bits(x) {
        POS_INF_BITS
    } else {
        let (mm, tt) = scaled(significand_of(x), ulp_exp_of(x));
        let s = isqrt_spec(mm);
        let r = if mm >= s * (s + 1) + 1 {
            s + 1
        } else {
            s
        };
        let q: nat = if r == 0x100_0000 {
            0x80_0000
        } else {
            r
        };
        let e2: int = if r == 0x100_0000 {
            tt / 2 + 1
        } else {
            tt / 2
        };
        (((e2 + 150) * 0x80_0000) + (q - 0x80_0000)) as u32
    }
}

/// The square root of a binary32 bit pattern, rounded to nearest.
/// See `sqrt_spec` for the full statement, including the policy on
/// NaN, negative, zero and infinite inputs.
pub fn sqrt_bits(x: u32) -> (r: u32)
    ensures
        r == sqrt_spec(x),
{
    let e = (x >> 23) & 0xFF;
    let f = x & 0x7F_FFFF;
    proof {
        assert(e == exp_field(x));
        assert(f == frac_field(x));
    }
    if e == 0xFF && f != 0 {
        return QNAN_BITS;
    }
    if x & 0x7FFF_FFFF == 0 {
        return x;
    }
    if x >> 31 == 1 {
        return QNAN_BITS;
    }
    if e == 0xFF {
        return POS_INF_BITS;
    }
    proof {
        assert(x & 0x7F_FFFF < 0x80_0000) by (bit_vector);
        assert((x >> 23) & 0xFF < 256) by (bit_vector);
        assert((x >> 23) & 0xFF == 0 && x >> 31 == 0 && !(x & 0x7FFF_FFFF == 0) ==> x
            & 0x7F_FFFF != 0) by (bit_vector);
        assert(x >> 31 == 0 || x >> 31 == 1) by (bit_vector);
        assert(x >> 31 == sign_field(x));
    }
    // positive, finite, non-zero: significand m with ulp exponent u - 200
    let mut m: u64 = if e == 0 {
        f as u64
    } else {
        (f + 0x80_0000) as u64
    };
    // the ulp exponent, offset by 200 so it stays non-negative
    let mut u: u64 = if e == 0 {
        51
    } else {
        e as u64 + 50
    };
    let ghost m0: nat = m as nat;
    let ghost u0: u64 = u;
    proof {
        vstd::arithmetic::power2::lemma2_to64();
        assert(m0 == significand_of(x));
        assert(u0 as int - 200 == ulp_exp_of(x));
        assert(m0 >= 1);
        assert(m0 < 0x100_0000);
        assert(51 <= u0 <= 304);
        assert(m0 * pow2(0) == m0) by (nonlinear_arith)
            requires
                pow2(0) == 1,
        {}
    }
    while m < 0x4000_0000_0000
        invariant
            1 <= m,
            m < 0x8000_0000_0000,
            1 <= m0 < 0x100_0000,
            51 <= u0 <= 304,
            u <= u0,
            3 <= u,
            m == m0 * pow2((u0 - u) as nat),
            scaled(m as nat, u as int - 200) == scaled(m0, u0 as int - 200),
        decreases 0x8000_0000_0000 - m,
    {
        proof {
            assert(scaled(m as nat, u as int - 200) == scaled(2 * m as nat, u as int - 201));
            vstd::arithmetic::power2::lemma_pow2_adds((u0 - u) as nat, 1);
            vstd::arithmetic::power2::lemma2_to64();
            assert((u0 - u + 1) as nat == (u0 - u) as nat + 1);
            assert(pow2((u0 - u + 1) as nat) == pow2((u0 - u) as nat) * 2);
            assert(2 * (m0 * pow2((u0 - u) as nat)) == m0 * pow2((u0 - u + 1) as nat))
                by (nonlinear_arith)
                requires
                    pow2((u0 - u + 1) as nat) == pow2((u0 - u) as nat) * 2,
            {}
            // the shift count stays below 46, so u cannot reach the floor
            if u0 - u >= 46 {
                vstd::arithmetic::power2::lemma2_to64_rest();
                if u0 - u > 46 {
                    vstd::arithmetic::power2::lemma_pow2_strictly_increases(
                        46,
                        (u0 - u) as nat,
                    );
                }
                assert(pow2((u0 - u) as nat) >= 0x4000_0000_0000);
                assert(m >= pow2((u0 - u) as nat)) by (nonlinear_arith)
                    requires
                        m == m0 * pow2((u0 - u) as nat),
                        m0 >= 1,
                {}
                assert(false);
            }
        }
        m = m * 2;
        u = u - 1;
    }
    if u % 2 != 0 {
        proof {
            vstd::arithmetic::div_mod::lemma_mod_multiples_vanish(-100, u as int, 2);
            assert((u as int - 200) % 2 != 0);
            assert(scaled(m as nat, u as int - 200) == scaled(2 * m as nat, u as int - 201));
        }
        m = m * 2;
        u = u - 1;
    }
    proof {
        vstd::arithmetic::div_mod::lemma_mod_multiples_vanish(-100, u as int, 2);
        assert((u as int - 200) % 2 == 0);
        assert(scaled(m as nat, u as int - 200) == (m as nat, u as int - 200));
        assert(scaled(m0, u0 as int - 200) == (m as nat, u as int - 200));
    }
    let s = isqrt48(m);
    proof {
        lemma_isqrt_spec(m as nat);
        lemma_isqrt_unique(m as nat, s as nat, isqrt_spec(m as nat));
        assert(s >= 0x80_0000) by (nonlinear_arith)
            requires
                m < (s + 1) * (s + 1),
                m >= 0x4000_0000_0000,
        {}
        assert(s < 0x100_0000) by (nonlinear_arith)
            requires
                s * s <= m,
                m < 0x1_0000_0000_0000,
        {}
        assert(s * (s + 1) + 1 <= 0x1_0000_0000_0001) by (nonlinear_arith)
            requires
                s < 0x100_0000,
        {}
    }
    let r24 = if m >= s * (s + 1) + 1 {
        s + 1
    } else {
        s
    };
    let q: u64 = if r24 == 0x100_0000 {
        0x80_0000
    } else {
        r24
    };
    let half: u64 = u / 2;
    let eb: u64 = if r24 == 0x100_0000 {
        half + 51
    } else {
        half + 50
    };
    proof {
        // u is even, so the spec's euclidean halving agrees with u / 2
        assert(u == 2 * (u / 2));
        assert((u as int - 200) / 2 == u as int / 2 - 100);
        assert(eb as int == ((if r24 == 0x100_0000 {
            (u as int - 200) / 2 + 1
        } else {
            (u as int - 200) / 2
        }) + 150));
        assert(1 <= eb <= 254);
        assert(0x80_0000 <= q < 0x100_0000);
    }
    let out: u32 = ((eb as u32) << 23) | ((q - 0x80_0000) as u32);
    proof {
        let ebb = eb as u32;
        let w = (q - 0x80_0000) as u32;
        assert((ebb << 23) | w == ebb * 0x80_0000 + w) by (bit_vector)
            requires
                ebb < 256,
                w < 0x80_0000,
        ;
    }
    out
}

/// The rounding step really rounds to nearest, with no tie possible: a
/// positive finite input rescales to `M * 2^T` with `T` even, its exact
/// square root lies in `(r - 1/2, r + 1/2) * 2^(T/2)` for the chosen
/// 24-or-25-bit `r`, which squared and scaled by four reads
/// `(2r-1)^2 < 4M < (2r+1)^2` (both strict: `4M` is even, the bounds are
/// odd squares).
pub proof fn lemma_sqrt_rounds_to_nearest(x: u32)
    requires
        sign_field(x) == 0,
        !is_nan_bits(x),
        !is_zero_bits(x),
        !is_inf_bits(x),
    ensures
        ({
            let (mm, tt) = scaled(significand_of(x), ulp_exp_of(x));
            let s = isqrt_spec(mm);
            let r = if mm >= s * (s + 1) + 1 {
                s + 1
            } else {
                s
            };
            &&& r >= 1
            &&& (2 * r - 1) * (2 * r - 1) < 4 * mm
            &&& 4 * mm < (2 * r + 1) * (2 * r + 1)
        }),
{
    assert(frac_field(x) < 0x80_0000) by (bit_vector);
    assert(x >> 31 == 0 && !(x & 0x7FFF_FFFF == 0) ==> (x & 0x7F_FFFF != 0 || (x >> 23)
        & 0xFF != 0)) by (bit_vector);
    let m0 = significand_of(x);
    let t0 = ulp_exp_of(x);
    assert(1 <= m0 && m0 < 0x100_0000);
    lemma_scaled_props(m0, t0);
    let (mm, tt) = scaled(m0, t0);
    lemma_isqrt_spec(mm);
    let s = isqrt_spec(mm);
    assert(s >= 1) by (nonlinear_arith)
        requires
            mm < (s + 1) * (s + 1),
            mm >= 0x4000_0000_0000,
    {}
    if mm >= s * (s + 1) + 1 {
        let r = s + 1;
        assert((2 * r - 1) * (2 * r - 1) < 4 * mm) by (nonlinear_arith)
            requires
                r == s + 1,
                mm >= s * (s + 1) + 1,
        {}
        assert(4 * mm < (2 * r + 1) * (2 * r + 1)) by (nonlinear_arith)
            requires
                r == s + 1,
                mm < (s + 1) * (s + 1),
        {}
    } else {
        let r = s;
        assert((2 * r - 1) * (2 * r - 1) < 4 * mm) by (nonlinear_arith)
            requires
                r == s,
                s >= 1,
                mm >= s * s,
        {}
        assert(4 * mm < (2 * r + 1) * (2 * r + 1)) by (nonlinear_arith)
            requires
                r == s,
                mm < s * (s + 1) + 1,
        {}
    }
}

/// The square root of a positive-or-zero, non-NaN pattern is itself
/// positive or zero and never NaN.
pub proof fn lemma_sqrt_nonneg(x: u32)
    requires
        sign_field(x) == 0,
        !is_nan_bits(x),
    ensures
        sign_field(sqrt_spec(x)) == 0,
        !is_nan_bits(sqrt_spec(x)),
{
    if is_zero_bits(x) {
        assert(x == 0) by (bit_vector)
            requires
                x & 0x7FFF_FFFF == 0,
                x >> 31 == 0,
        ;
        assert(sign_field(0u32) == 0) by (bit_vector);
        assert(exp_field(0u32) == 0) by (bit_vector);
    } else if is_inf_bits(x) {
        assert(sign_field(0x7F80_0000u32) == 0) by (bit_vector);
        assert(frac_field(0x7F80_0000u32) == 0) by (bit_vector);
    } else {
        let m0 = significand_of(x);
        let t0 = ulp_exp_of(x);
        assert(frac_field(x) < 0x80_0000) by (bit_vector);
        assert(exp_field(x) < 256) by (bit_vector);
        assert(x >> 31 == 0 && !(x & 0x7FFF_FFFF == 0) ==> (x & 0x7F_FFFF != 0 || (x >> 23)
            & 0xFF != 0)) by (bit_vector);
        assert(1 <= m0 && m0 < 0x100_0000);
        assert(-149 <= t0 <= 104);
        lemma_scaled_props(m0, t0);
        let (mm, tt) = scaled(m0, t0);
        lemma_isqrt_spec(mm);
        let s = isqrt_spec(mm);
        assert(s >= 0x80_0000) by (nonlinear_arith)
            requires
                mm < (s + 1) * (s + 1),
                mm >= 0x4000_0000_0000,
        {}
        assert(s < 0x100_0000) by (nonlinear_arith)
            requires
                s * s <= mm,
                mm < 0x1_0000_0000_0000,
        {}
        // tt <= t0 and mm == m0 * pow2(t0 - tt) < 2^48 bound the shift by 47
        if t0 - tt >= 48 {
            vstd::arithmetic::power2::lemma2_to64_rest();
            if t0 - tt > 48 {
                vstd::arithmetic::power2::lemma_pow2_strictly_increases(48, (t0 - tt) as nat);
            }
            assert(pow2((t0 - tt) as nat) >= 0x1_0000_0000_0000);
            assert(mm >= pow2((t0 - tt) as nat)) by (nonlinear_arith)
                requires
                    mm == m0 * pow2((t0 - tt) as nat),
                    m0 >= 1,
            {}
            assert(false);
        }
        assert(t0 - 47 <= tt <= t0);
        assert(-196 <= tt <= 104);
        let r = if mm >= s * (s + 1) + 1 {
            s + 1
        } else {
            s
        };
        let q: nat = if r == 0x100_0000 {
            0x80_0000
        } else {
            r
        };
        let e2: int = if r == 0x100_0000 {
            tt / 2 + 1
        } else {
            tt / 2
        };
        assert(tt == 2 * (tt / 2));
        assert(-98 <= e2 <= 53);
        assert(52 <= e2 + 150 <= 203);
        assert(0x80_0000 <= q < 0x100_0000);
        let outv = ((e2 + 150) * 0x80_0000) + (q - 0x80_0000);
        assert(outv < 0x6600_0000);
        let out = outv as u32;
        assert(out >> 31 == 0 && (out >> 23) & 0xFF != 0xFF) by (bit_vector)
            requires
                out < 0x6600_0000,
        ;
    }
}

/// The square root of the zero pattern is zero.
pub proof fn lemma_sqrt_zero()
    ensures
        sqrt_spec(0) == 0,
{
    assert(exp_field(0u32) == 0 && frac_field(0u32) == 0 && 0u32 & 0x7FFF_FFFF == 0)
        by (bit_vector);
}

} // verus!
