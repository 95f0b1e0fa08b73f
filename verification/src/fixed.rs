//! Fixed-point scalar arithmetic.
//!
//! Quantities (metres, metres per second, covariance entries, probabilities)
//! are held as `i64` values scaled by [`FX_ONE`]: the value `v` stands for the
//! real number `v / 1_000_000`. Multiplication and division truncate toward
//! zero and saturate at the `i64` range, so every operation is total and its
//! result is pinned exactly by the spec functions below.

use vstd::prelude::*;

verus! {

use vstd::arithmetic::div_mod::lemma_div_nonincreasing;
use vstd::arithmetic::div_mod::lemma_div_pos_is_pos;
use vstd::arithmetic::mul::lemma_mul_upper_bound;
use vstd::arithmetic::mul::lemma_mul_inequality;

/// One whole unit in fixed-point representation.
pub const FX_ONE: i64 = 1_000_000;

/// Absolute value of a mathematical integer.
pub open spec fn abs_i(a: int) -> int {
    if a < 0 {
        -a
    } else {
        a
    }
}

/// Division truncating toward zero, as Rust's `/` behaves on machine integers.
pub open spec fn tdiv(a: int, b: int) -> int {
    if (a < 0) <==> (b < 0) {
        abs_i(a) / abs_i(b)
    } else {
        -(abs_i(a) / abs_i(b))
    }
}

/// Saturation of a mathematical integer into the `i64` range.
pub open spec fn sat64(a: int) -> i64 {
    if a > i64::MAX {
        i64::MAX
    } else if a < i64::MIN {
        i64::MIN
    } else {
        a as i64
    }
}

/// Fixed-point product: `a * b / FX_ONE`, truncated and saturated.
pub open spec fn fx_mul(a: i64, b: i64) -> i64 {
    sat64(tdiv(a * b, FX_ONE as int))
}

/// Fixed-point quotient: `a * FX_ONE / b`, truncated and saturated.
pub open spec fn fx_div(a: i64, b: i64) -> i64 {
    sat64(tdiv(a * FX_ONE, b as int))
}

/// Midpoint of two values, truncated toward zero.
pub open spec fn fx_avg(a: i64, b: i64) -> i64 {
    sat64(tdiv(a + b, 2))
}

/// Saturating sum.
pub open spec fn fx_add(a: i64, b: i64) -> i64 {
    sat64(a + b)
}

/// Saturating difference.
pub open spec fn fx_sub(a: i64, b: i64) -> i64 {
    sat64(a - b)
}

proof fn lemma_tdiv_magnitude(a: int, b: int)
    requires
        b != 0,
    ensures
        abs_i(tdiv(a, b)) <= abs_i(a),
        abs_i(tdiv(a, b)) == abs_i(a) / abs_i(b),
{
    lemma_div_nonincreasing(abs_i(a), abs_i(b));
    lemma_div_pos_is_pos(abs_i(a), abs_i(b));
}

/// Truncating division on `i128`, the work-horse behind the fixed-point
/// operations. Operands are restricted away from `i128::MIN` so that taking
/// magnitudes cannot overflow; every call site passes products of `i64`s
/// or small sums, which stay far inside that bound.
pub fn tdiv128(a: i128, b: i128) -> (r: i128)
    requires
        b != 0,
        a != i128::MIN,
        b != i128::MIN,
    ensures
        r == tdiv(a as int, b as int),
        abs_i(r as int) <= abs_i(a as int),
{
    let am: u128 = if a < 0 {
        (-a) as u128
    } else {
        a as u128
    };
    let bm: u128 = if b < 0 {
        (-b) as u128
    } else {
        b as u128
    };
    proof {
        assert(am as int == abs_i(a as int));
        assert(bm as int == abs_i(b as int));
    }
    let q: u128 = am / bm;
    proof {
        lemma_div_nonincreasing(am as int, bm as int);
        lemma_div_pos_is_pos(am as int, bm as int);
        assert(q <= am);
    }
    if (a < 0) != (b < 0) {
        -(q as i128)
    } else {
        q as i128
    }
}

/// Saturates an `i128` into `i64`.
pub fn sat64_exec(v: i128) -> (r: i64)
    ensures
        r == sat64(v as int),
{
    if v > i64::MAX as i128 {
        i64::MAX
    } else if v < i64::MIN as i128 {
        i64::MIN
    } else {
        v as i64
    }
}

proof fn lemma_i64_product_in_range(a: int, b: int)
    requires
        i64::MIN <= a <= i64::MAX,
        i64::MIN <= b <= i64::MAX,
    ensures
        -(0x4000_0000_0000_0000_0000_0000_0000_0000) <= a * b
            <= 0x4000_0000_0000_0000_0000_0000_0000_0000,
{
    let bound: int = 0x8000_0000_0000_0000;
    assert(abs_i(a) <= bound && abs_i(b) <= bound);
    lemma_mul_upper_bound(abs_i(a), bound, abs_i(b), bound);
    assert(abs_i(a) * abs_i(b) <= bound * bound) by {
        lemma_mul_inequality(abs_i(a), bound, abs_i(b));
        lemma_mul_inequality(abs_i(b), bound, bound);
        vstd::arithmetic::mul::lemma_mul_is_commutative(abs_i(a), abs_i(b));
        vstd::arithmetic::mul::lemma_mul_is_commutative(abs_i(b), bound);
    }
    assert(abs_i(a * b) == abs_i(a) * abs_i(b)) by (nonlinear_arith);
}

/// Fixed-point multiplication.
pub fn fx_mul_exec(a: i64, b: i64) -> (r: i64)
    ensures
        r == fx_mul(a, b),
{
    proof {
        lemma_i64_product_in_range(a as int, b as int);
    }
    let p: i128 = (a as i128) * (b as i128);
    let q: i128 = tdiv128(p, FX_ONE as i128);
    sat64_exec(q)
}

/// Fixed-point division. The divisor must be non-zero; callers reject
/// degenerate (singular) quantities before dividing.
pub fn fx_div_exec(a: i64, b: i64) -> (r: i64)
    requires
        b != 0,
    ensures
        r == fx_div(a, b),
{
    proof {
        lemma_i64_product_in_range(a as int, FX_ONE as int);
    }
    let p: i128 = (a as i128) * (FX_ONE as i128);
    let q: i128 = tdiv128(p, b as i128);
    sat64_exec(q)
}

/// Midpoint, used to force covariance symmetry.
pub fn fx_avg_exec(a: i64, b: i64) -> (r: i64)
    ensures
        r == fx_avg(a, b),
{
    let s: i128 = (a as i128) + (b as i128);
    let q: i128 = tdiv128(s, 2);
    sat64_exec(q)
}

/// Saturating addition.
pub fn fx_add_exec(a: i64, b: i64) -> (r: i64)
    ensures
        r == fx_add(a, b),
{
    let s: i128 = (a as i128) + (b as i128);
    sat64_exec(s)
}

/// Saturating subtraction.
pub fn fx_sub_exec(a: i64, b: i64) -> (r: i64)
    ensures
        r == fx_sub(a, b),
{
    let s: i128 = (a as i128) - (b as i128);
    sat64_exec(s)
}

/// Floor division by a positive divisor (used for voxel bucketing, where
/// altitudes below the origin must round toward minus infinity).
pub open spec fn floor_div(a: int, b: int) -> int {
    a / b
}

/// Executable floor division by a positive divisor.
pub fn floor_div_exec(a: i64, b: i64) -> (r: i64)
    requires
        b > 0,
        a > i64::MIN,
    ensures
        r == floor_div(a as int, b as int),
{
    let am: u64 = if a < 0 {
        (-a) as u64
    } else {
        a as u64
    };
    let bm: u64 = b as u64;
    let q: u64 = am / bm;
    let rem: u64 = am % bm;
    if a >= 0 {
        proof {
            lemma_div_nonincreasing(am as int, bm as int);
            lemma_div_pos_is_pos(am as int, bm as int);
        }
        q as i64
    } else {
        proof {
            lemma_div_nonincreasing(am as int, bm as int);
            lemma_div_pos_is_pos(am as int, bm as int);
            vstd::arithmetic::div_mod::lemma_fundamental_div_mod(am as int, bm as int);
            let qq: int = if rem == 0 {
                -(q as int)
            } else {
                -(q as int) - 1
            };
            let rr: int = if rem == 0 {
                0
            } else {
                (bm - rem) as int
            };
            assert(a as int == (b as int) * qq + rr) by (nonlinear_arith)
                requires
                    am as int == (bm as int) * (q as int) + (rem as int),
                    a as int == -(am as int),
                    b as int == bm as int,
                    qq == if rem == 0 { -(q as int) } else { -(q as int) - 1 },
                    rr == if rem == 0 { 0 } else { (bm - rem) as int },
            ;
            vstd::arithmetic::div_mod::lemma_fundamental_div_mod_converse(
                a as int,
                b as int,
                qq,
                rr,
            );
        }
        if rem == 0 {
            -(q as i64)
        } else {
            -(q as i64) - 1
        }
    }
}


/// Magnitude bound of floor division: dividing by a positive divisor never
/// grows a value's magnitude.
pub proof fn lemma_floor_div_mag(a: int, b: int)
    requires
        b >= 1,
    ensures
        abs_i(a / b) <= abs_i(a),
{
    if a >= 0 {
        lemma_div_nonincreasing(a, b);
        lemma_div_pos_is_pos(a, b);
    } else {
        vstd::arithmetic::div_mod::lemma_fundamental_div_mod(a, b);
        let q = a / b;
        let r = a % b;
        assert(q >= a && q <= 0) by (nonlinear_arith)
            requires
                a == b * q + r,
                0 <= r < b,
                b >= 1,
                a < 0,
        ;
    }
}

/// Ceiling division by a positive divisor.
pub open spec fn ceil_div(a: int, b: int) -> int {
    (a + b - 1) / b
}

/// Executable ceiling division of non-negative values.
pub fn ceil_div_exec(a: i64, b: i64) -> (r: i64)
    requires
        a >= 0,
        b > 0,
    ensures
        r == ceil_div(a as int, b as int),
        0 <= r <= a,
{
    let au: u64 = a as u64;
    let bu: u64 = b as u64;
    let qd: u64 = au / bu;
    let rem: u64 = au % bu;
    proof {
        lemma_div_nonincreasing(au as int, bu as int);
        lemma_div_pos_is_pos(au as int, bu as int);
        vstd::arithmetic::div_mod::lemma_fundamental_div_mod(au as int, bu as int);
        let q2: int = if rem == 0 { qd as int } else { qd as int + 1 };
        let r2: int = if rem == 0 { (bu - 1) as int } else { (rem - 1) as int };
        assert(a as int + b as int - 1 == (b as int) * q2 + r2) by (nonlinear_arith)
            requires
                au as int == (bu as int) * (qd as int) + (rem as int),
                0 <= rem as int && (rem as int) < (bu as int),
                a as int == au as int,
                b as int == bu as int,
                q2 == if rem == 0 { qd as int } else { qd as int + 1 },
                r2 == if rem == 0 { (bu - 1) as int } else { (rem - 1) as int },
        ;
        vstd::arithmetic::div_mod::lemma_fundamental_div_mod_converse(
            a as int + b as int - 1,
            b as int,
            q2,
            r2,
        );
        if rem != 0 {
            assert(qd as int + 1 <= a as int) by (nonlinear_arith)
                requires
                    au as int == (bu as int) * (qd as int) + (rem as int),
                    1 <= rem as int && (rem as int) < (bu as int),
                    bu >= 1,
                    a as int == au as int,
            ;
        }
    }
    if rem == 0 {
        qd as i64
    } else {
        (qd + 1) as i64
    }
}

} // verus!
