//! Fixed-point scalar arithmetic.
//!
//! Every scalar of the engine is an `i64` carrying six decimal places: a
//! raw value `v` stands for the real number `v / 1_000_000`. All
//! operations saturate at `FX_MAX` instead of overflowing, and division
//! truncates toward zero. The exponential and the natural logarithm are
//! computed by truncated power series over the same representation; their
//! spec functions below state the exact value each one returns.

use vstd::prelude::*;
use vstd::arithmetic::div_mod::*;
use vstd::arithmetic::power::pow;
use vstd::arithmetic::power2::pow2;

verus! {

/// Raw units per one: a raw value `v` stands for `v / SCALE`.
pub const SCALE: i64 = 1_000_000;

/// Saturation bound: every arithmetic result is clipped into `[-FX_MAX, FX_MAX]`.
pub const FX_MAX: i64 = 1_000_000_000_000_000_000;

/// Euler's number in raw units.
pub const E_FX: i64 = 2_718_281;

/// Natural logarithm of two in raw units.
pub const LN2_FX: i64 = 693_147;

/// Arguments of the exponential are clamped into `[-EXP_ARG_MAX, EXP_ARG_MAX]`.
pub const EXP_ARG_MAX: i64 = 8_000_000;

pub open spec fn iabs(x: int) -> int {
    if x < 0 {
        -x
    } else {
        x
    }
}

/// Signed division truncating toward zero; division by zero yields zero.
pub open spec fn sdiv(p: int, q: int) -> int {
    if q == 0 {
        0
    } else if (p < 0) == (q < 0) {
        iabs(p) / iabs(q)
    } else {
        -(iabs(p) / iabs(q))
    }
}

/// Saturation into the representable range.
pub open spec fn clip(x: int) -> int {
    if x > FX_MAX {
        FX_MAX as int
    } else if x < -(FX_MAX as int) {
        -(FX_MAX as int)
    } else {
        x
    }
}

pub open spec fn add_fx(a: int, b: int) -> int {
    clip(a + b)
}

pub open spec fn sub_fx(a: int, b: int) -> int {
    clip(a - b)
}

pub open spec fn mul_fx(a: int, b: int) -> int {
    clip(sdiv(a * b, SCALE as int))
}

pub open spec fn div_fx(a: int, b: int) -> int {
    clip(sdiv(a * (SCALE as int), b))
}

proof fn lemma_i64_product_range(a: int, b: int)
    requires
        -0x8000_0000_0000_0000 <= a <= 0x7fff_ffff_ffff_ffff,
        -0x8000_0000_0000_0000 <= b <= 0x7fff_ffff_ffff_ffff,
    ensures
        -0x4000_0000_0000_0000_0000_0000_0000_0000 <= a * b
            <= 0x4000_0000_0000_0000_0000_0000_0000_0000,
{
    assert(-0x4000_0000_0000_0000_0000_0000_0000_0000 <= a * b
        <= 0x4000_0000_0000_0000_0000_0000_0000_0000) by (nonlinear_arith)
        requires
            -0x8000_0000_0000_0000 <= a <= 0x7fff_ffff_ffff_ffff,
            -0x8000_0000_0000_0000 <= b <= 0x7fff_ffff_ffff_ffff,
    ;
}

/// Saturated truncating division of two wide operands.
pub(crate) fn sdiv_sat(p: i128, q: i128) -> (r: i64)
    requires
        -0x4000_0000_0000_0000_0000_0000_0000_0000 <= p
            <= 0x4000_0000_0000_0000_0000_0000_0000_0000,
        -0x4000_0000_0000_0000_0000_0000_0000_0000 <= q
            <= 0x4000_0000_0000_0000_0000_0000_0000_0000,
    ensures
        r as int == clip(sdiv(p as int, q as int)),
{
    if q == 0 {
        return 0;
    }
    let neg: bool = (p < 0) != (q < 0);
    let ma: u128 = if p < 0 {
        (-p) as u128
    } else {
        p as u128
    };
    let mq: u128 = if q < 0 {
        (-q) as u128
    } else {
        q as u128
    };
    let d: u128 = ma / mq;
    let lim: u128 = FX_MAX as u128;
    let c: u128 = if d > lim {
        lim
    } else {
        d
    };
    let ci: i64 = c as i64;
    if neg {
        -ci
    } else {
        ci
    }
}

/// Saturating addition.
pub fn fx_add(a: i64, b: i64) -> (r: i64)
    ensures
        r as int == add_fx(a as int, b as int),
{
    let s: i128 = a as i128 + b as i128;
    if s > FX_MAX as i128 {
        FX_MAX
    } else if s < -(FX_MAX as i128) {
        -FX_MAX
    } else {
        s as i64
    }
}

/// Saturating subtraction.
pub fn fx_sub(a: i64, b: i64) -> (r: i64)
    ensures
        r as int == sub_fx(a as int, b as int),
{
    let s: i128 = a as i128 - b as i128;
    if s > FX_MAX as i128 {
        FX_MAX
    } else if s < -(FX_MAX as i128) {
        -FX_MAX
    } else {
        s as i64
    }
}

/// Saturating fixed-point multiplication: `(a * b) / SCALE`, toward zero.
pub fn fx_mul(a: i64, b: i64) -> (r: i64)
    ensures
        r as int == mul_fx(a as int, b as int),
{
    proof {
        lemma_i64_product_range(a as int, b as int);
    }
    let p: i128 = (a as i128) * (b as i128);
    sdiv_sat(p, SCALE as i128)
}

/// Saturating fixed-point division: `(a * SCALE) / b`, toward zero; zero when `b` is zero.
pub fn fx_div(a: i64, b: i64) -> (r: i64)
    ensures
        r as int == div_fx(a as int, b as int),
{
    proof {
        lemma_i64_product_range(a as int, SCALE as int);
    }
    let p: i128 = (a as i128) * (SCALE as i128);
    sdiv_sat(p, b as i128)
}

/// Taylor term `k` of `e^r` for a fractional argument `r` in `[0, SCALE)`:
/// term 0 is one; term `k` is term `k-1` times `r / k`.
pub open spec fn exp_term_fx(r: int, k: nat) -> int
    decreases k,
{
    if k == 0 {
        SCALE as int
    } else {
        sdiv(exp_term_fx(r, (k - 1) as nat) * r, k * (SCALE as int))
    }
}

/// Partial Taylor sum of `e^r` through term `n`.
pub open spec fn exp_series_fx(r: int, n: nat) -> int
    decreases n,
{
    if n == 0 {
        exp_term_fx(r, 0)
    } else {
        exp_series_fx(r, (n - 1) as nat) + exp_term_fx(r, n)
    }
}

/// `f` multiplied `k` times by `e` in raw units.
pub open spec fn exp_whole_fx(f: int, k: nat) -> int
    decreases k,
{
    if k == 0 {
        f
    } else {
        sdiv(exp_whole_fx(f, (k - 1) as nat) * (E_FX as int), SCALE as int)
    }
}

/// The exponential for a nonnegative argument, clamped at `EXP_ARG_MAX`:
/// the 12-term Taylor sum on the fractional part, then one factor of `e`
/// for each whole unit.
pub open spec fn exp_pos_fx(x: int) -> int {
    let xc = if x > EXP_ARG_MAX as int {
        EXP_ARG_MAX as int
    } else {
        x
    };
    exp_whole_fx(exp_series_fx(xc % (SCALE as int), 12), (xc / (SCALE as int)) as nat)
}

/// The exponential over the whole line; a negative argument takes the
/// reciprocal of the positive case.
pub open spec fn exp_fx(x: int) -> int {
    if x >= 0 {
        exp_pos_fx(x)
    } else {
        sdiv((SCALE as int) * (SCALE as int), exp_pos_fx(-x))
    }
}

proof fn lemma_sdiv_step_le(t: int, r: int, k: int, cap: int)
    requires
        0 <= t <= cap,
        0 <= r < SCALE as int,
        1 <= k,
        0 <= cap,
    ensures
        0 <= sdiv(t * r, k * (SCALE as int)) <= cap,
{
    let s = SCALE as int;
    assert(0 <= t * r <= cap * s) by (nonlinear_arith)
        requires
            0 <= t <= cap,
            0 <= r < s,
            0 <= cap,
            s == 1000000,
    ;
    assert(s <= k * s) by (nonlinear_arith)
        requires
            1 <= k,
            s == 1000000,
    ;
    lemma_div_is_ordered(t * r, cap * s, k * s);
    lemma_div_is_ordered_by_denominator(cap * s, s, k * s);
    lemma_div_multiples_vanish(cap, s);
    assert(sdiv(t * r, k * s) == (t * r) / (k * s));
    lemma_div_pos_is_pos(t * r, k * s);
}

/// The exponential of a raw argument; the result is exactly `exp_fx` of it.
pub fn fx_exp(x: i64) -> (r: i64)
    ensures
        r as int == exp_fx(x as int),
        0 <= r <= 90_000_000_000,
{
    let nonneg: bool = x >= 0;
    let ghost mag: int = if x >= 0 {
        x as int
    } else {
        -(x as int)
    };
    let xc: u64 = if x >= EXP_ARG_MAX {
        8_000_000
    } else if x <= -EXP_ARG_MAX {
        8_000_000
    } else if nonneg {
        x as u64
    } else {
        (-x) as u64
    };
    proof {
        assert(xc as int == if mag > EXP_ARG_MAX as int {
            EXP_ARG_MAX as int
        } else {
            mag
        });
    }
    let whole: u64 = xc / 1_000_000;
    let frac: u64 = xc % 1_000_000;
    proof {
        lemma_div_is_ordered(xc as int, 8_000_000, 1_000_000);
        lemma_div_multiples_vanish(8, 1_000_000);
        lemma_mod_bound(xc as int, 1_000_000);
        lemma_div_pos_is_pos(xc as int, 1_000_000);
    }
    assert(whole <= 8);

    let mut term: u64 = 1_000_000;
    let mut sum: u64 = 1_000_000;
    let mut k: u64 = 1;
    while k <= 12
        invariant
            1 <= k <= 13,
            frac < 1_000_000,
            term as int == exp_term_fx(frac as int, (k - 1) as nat),
            sum as int == exp_series_fx(frac as int, (k - 1) as nat),
            term <= 1_000_000,
            1_000_000 <= sum <= k * 1_000_000,
        decreases 13 - k,
    {
        proof {
            assert((term as int) * (frac as int) <= 1_000_000_000_000) by (nonlinear_arith)
                requires
                    0 <= term <= 1_000_000,
                    0 <= frac < 1_000_000,
            ;
        }
        let num: u128 = (term as u128) * (frac as u128);
        let den: u128 = (k as u128) * 1_000_000u128;
        let t2: u128 = num / den;
        proof {
            lemma_sdiv_step_le(term as int, frac as int, k as int, 1_000_000);
            assert(t2 as int == sdiv(term as int * frac as int, k as int * (SCALE as int)));
        }
        term = t2 as u64;
        sum = sum + term;
        k = k + 1;
    }
    // sum == exp_series_fx(frac, 12)
    proof {
        reveal_with_fuel(pow, 2);
        assert(pow(3, 0) == 1);
    }
    let mut res: u64 = sum;
    let mut j: u64 = 0;
    while j < whole
        invariant
            0 <= j <= whole <= 8,
            res as int == exp_whole_fx(sum as int, j as nat),
            1_000_000 <= sum <= 13_000_000,
            1_000_000 <= res,
            res as int <= 13_000_000 * pow(3, j as nat),
        decreases whole - j,
    {
        proof {
            reveal_with_fuel(pow, 10);
            assert(pow(3, j as nat) <= pow(3, 8)) by {
                vstd::arithmetic::power::lemma_pow_increases(3, j as nat, 8);
            }
            assert(res as int <= 13_000_000 * 6561) by (nonlinear_arith)
                requires
                    res as int <= 13_000_000 * pow(3, j as nat),
                    pow(3, j as nat) <= 6561,
                    pow(3, j as nat) >= 0,
            ;
        }
        proof {
            assert((res as int) * 2_718_281 <= 0x8000_0000_0000_0000_0000_0000_0000_0000)
                by (nonlinear_arith)
                requires
                    0 <= res as int <= 13_000_000 * 6561,
            ;
        }
        let num: u128 = (res as u128) * 2_718_281u128;
        let r2: u128 = num / 1_000_000u128;
        proof {
            let ri = res as int;
            let s = SCALE as int;
            assert(ri * (E_FX as int) <= (3 * ri) * s) by (nonlinear_arith)
                requires
                    0 <= ri,
                    s == 1000000,
            ;
            assert(ri * s <= ri * (E_FX as int)) by (nonlinear_arith)
                requires
                    0 <= ri,
                    s == 1000000,
            ;
            lemma_div_is_ordered(ri * s, ri * (E_FX as int), s);
            lemma_div_is_ordered(ri * (E_FX as int), (3 * ri) * s, s);
            lemma_div_multiples_vanish(ri, s);
            lemma_div_multiples_vanish(3 * ri, s);
            assert(r2 as int == sdiv(ri * (E_FX as int), s));
            assert(pow(3, (j + 1) as nat) == 3 * pow(3, j as nat)) by {
                reveal_with_fuel(pow, 2);
            }
            assert(3 * ri <= 3 * (13_000_000 * pow(3, j as nat)));
            assert(3 * (13_000_000 * pow(3, j as nat)) == 13_000_000 * pow(3, (j + 1) as nat))
                by (nonlinear_arith)
                requires
                    pow(3, (j + 1) as nat) == 3 * pow(3, j as nat),
            ;
        }
        res = r2 as u64;
        j = j + 1;
    }
    proof {
        reveal_with_fuel(pow, 10);
        assert(pow(3, whole as nat) <= pow(3, 8)) by {
            vstd::arithmetic::power::lemma_pow_increases(3, whole as nat, 8);
        }
        assert(res as int <= 13_000_000 * 6561) by (nonlinear_arith)
            requires
                res as int <= 13_000_000 * pow(3, whole as nat),
                pow(3, whole as nat) <= 6561,
                pow(3, whole as nat) >= 0,
        ;
        assert(res as int == exp_pos_fx(mag as int));
    }
    if nonneg {
        res as i64
    } else {
        let q: u128 = 1_000_000_000_000u128 / (res as u128);
        proof {
            lemma_div_is_ordered_by_denominator(1_000_000_000_000, 1_000_000, res as int);
            lemma_div_multiples_vanish(1_000_000, 1_000_000);
            lemma_div_pos_is_pos(1_000_000_000_000, res as int);
            assert(q as int == sdiv((SCALE as int) * (SCALE as int), exp_pos_fx(mag as int)));
        }
        q as i64
    }
}

/// Power `k` of the series variable `t`, in raw units.
pub open spec fn ln_pow_fx(t: int, k: nat) -> int
    decreases k,
{
    if k <= 1 {
        t
    } else {
        sdiv(ln_pow_fx(t, (k - 1) as nat) * t, SCALE as int)
    }
}

/// Partial sum through term `n` of `-ln(1 - t/SCALE)`: the sum of `t^k / k`.
pub open spec fn ln_series_fx(t: int, n: nat) -> int
    decreases n,
{
    if n == 0 {
        0
    } else {
        ln_series_fx(t, (n - 1) as nat) + sdiv(ln_pow_fx(t, n), n as int)
    }
}

/// How many doublings bring `y` into `[SCALE/2, SCALE)`.
pub open spec fn ln_shift_fx(y: int) -> nat
    decreases (if 1 <= y < 500_000 {
        500_000 - y
    } else {
        0
    }),
{
    if y < 1 || y >= 500_000 {
        0
    } else {
        1 + ln_shift_fx(2 * y)
    }
}

/// The natural logarithm of `y` in `[1, SCALE]` (a probability in raw
/// units): `y` is doubled into `[SCALE/2, SCALE]`, an 18-term series gives
/// the logarithm of the mantissa, and each doubling subtracts `ln 2`.
/// The result is nonpositive.
pub open spec fn ln_fx(y: int) -> int {
    let yc = if y < 1 {
        1
    } else if y > SCALE as int {
        SCALE as int
    } else {
        y
    };
    let c = ln_shift_fx(yc);
    let m = yc * pow2(c);
    -(ln_series_fx((SCALE as int) - m, 18) + c * (LN2_FX as int))
}

/// The natural logarithm of a raw argument clamped into `[1, SCALE]`;
/// the result is exactly `ln_fx` of it.
pub fn fx_ln(y: i64) -> (r: i64)
    ensures
        r as int == ln_fx(y as int),
        -25_000_000 <= r <= 0,
{
    let yc: u64 = if y < 1 {
        1
    } else if y > SCALE {
        SCALE as u64
    } else {
        y as u64
    };
    let mut m: u64 = yc;
    let mut c: u64 = 0;
    proof {
        vstd::arithmetic::power2::lemma2_to64();
        assert(pow2(0) == 1);
    }
    while m < 500_000
        invariant
            1 <= m <= 1_000_000,
            1 <= yc <= 1_000_000,
            c <= 19,
            m as int == (yc as int) * pow2(c as nat),
            pow2(c as nat) <= m as int,
            ln_shift_fx(yc as int) == c as nat + ln_shift_fx(m as int),
        decreases 1_000_000 - m,
    {
        proof {
            vstd::arithmetic::power2::lemma2_to64();
            if c >= 19 {
                assert(pow2(19) == 524288);
                assert(false);
            }
            assert(pow2((c + 1) as nat) == 2 * pow2(c as nat)) by {
                vstd::arithmetic::power2::lemma_pow2_unfold((c + 1) as nat);
            }
            assert((yc as int) * (2 * pow2(c as nat)) == 2 * ((yc as int) * pow2(c as nat)))
                by (nonlinear_arith);
        }
        m = m * 2;
        c = c + 1;
    }
    proof {
        assert(ln_shift_fx(m as int) == 0);
        assert(c as nat == ln_shift_fx(yc as int));
    }
    let t: u64 = 1_000_000 - m;
    proof {
        lemma_div_basics(t as int);
        reveal_with_fuel(ln_series_fx, 3);
        assert(ln_series_fx(t as int, 1) == t as int);
    }
    let mut p: u64 = t;
    let mut acc: u64 = t;
    let mut k: u64 = 2;
    while k <= 18
        invariant
            2 <= k <= 19,
            t <= 500_000,
            p as int == ln_pow_fx(t as int, (k - 1) as nat),
            acc as int == ln_series_fx(t as int, (k - 1) as nat),
            0 <= p <= 500_000,
            0 <= acc <= k * 500_000,
        decreases 19 - k,
    {
        proof {
            assert((p as int) * (t as int) <= 1_000_000_000_000) by (nonlinear_arith)
                requires
                    0 <= p <= 500_000,
                    0 <= t <= 500_000,
            ;
        }
        let num: u128 = (p as u128) * (t as u128);
        let p2: u128 = num / 1_000_000u128;
        proof {
            lemma_sdiv_step_le(p as int, t as int, 1, 500_000);
            assert(p2 as int == sdiv(p as int * t as int, SCALE as int));
        }
        p = p2 as u64;
        let d: u64 = p / k;
        proof {
            lemma_div_pos_is_pos(p as int, k as int);
            lemma_div_is_ordered_by_denominator(p as int, 1, k as int);
            assert(d as int == sdiv(ln_pow_fx(t as int, k as nat), k as int));
        }
        acc = acc + d;
        k = k + 1;
    }
    let mag: u64 = acc + c * 693_147;
    let r: i64 = -(mag as i64);
    proof {
        assert(r as int == ln_fx(y as int));
    }
    r
}

} // verus!
