//! Signed integer arithmetic used by the command table: truncating division
//! and Python-style floored modulus.

use vstd::prelude::*;

verus! {

/// Quotient of `y / x` rounded toward negative infinity.
pub open spec fn floor_div_spec(y: int, x: int) -> int
    recommends
        x != 0,
{
    if x > 0 {
        y / x
    } else {
        (-y) / (-x)
    }
}

/// Floored modulus `y - floor(y / x) * x`; shares the sign of the divisor.
pub open spec fn floor_mod_spec(y: int, x: int) -> int
    recommends
        x != 0,
{
    y - floor_div_spec(y, x) * x
}

/// Quotient of `y / x` rounded toward zero, as Rust's `/` computes it.
pub open spec fn trunc_div_spec(y: int, x: int) -> int
    recommends
        x != 0,
{
    if y >= 0 && x > 0 {
        y / x
    } else if y < 0 && x < 0 {
        (-y) / (-x)
    } else if y < 0 {
        -((-y) / x)
    } else {
        -(y / (-x))
    }
}

/// Remainder of `y / x` rounded toward zero, as Rust's `%` computes it;
/// shares the sign of the dividend.
pub open spec fn trunc_rem_spec(y: int, x: int) -> int
    recommends
        x != 0,
{
    y - trunc_div_spec(y, x) * x
}

/// The floored modulus takes the sign of the divisor: it lies in `[0, x)` for
/// a positive divisor and in `(x, 0]` for a negative one, and it always equals
/// `y - floor(y / x) * x`.
pub proof fn lemma_floor_mod_sign(y: int, x: int)
    requires
        x != 0,
    ensures
        x > 0 ==> 0 <= floor_mod_spec(y, x) < x,
        x < 0 ==> x < floor_mod_spec(y, x) <= 0,
        floor_mod_spec(y, x) == y - floor_div_spec(y, x) * x,
{
    if x > 0 {
        let q = y / x;
        let m = y % x;
        vstd::arithmetic::div_mod::lemma_fundamental_div_mod(y, x);
        vstd::arithmetic::div_mod::lemma_mod_bound(y, x);
        assert(y - q * x == m) by (nonlinear_arith)
            requires
                y == x * q + m,
        ;
    } else {
        let d = -x;
        let q = (-y) / d;
        let m = (-y) % d;
        vstd::arithmetic::div_mod::lemma_fundamental_div_mod(-y, d);
        vstd::arithmetic::div_mod::lemma_mod_bound(-y, d);
        assert(y - q * x == -m) by (nonlinear_arith)
            requires
                -y == d * q + m,
                x == -d,
        ;
    }
}

/// For a positive divisor the floored modulus coincides with `%`.
pub proof fn lemma_floor_mod_pos(y: int, x: int)
    requires
        x > 0,
    ensures
        floor_mod_spec(y, x) == y % x,
{
    vstd::arithmetic::div_mod::lemma_fundamental_div_mod(y, x);
    assert(y - (y / x) * x == y % x) by (nonlinear_arith)
        requires
            y == x * (y / x) + y % x,
    ;
}

/// Relates the truncating quotient and remainder to Euclidean division, so
/// that the exec operators below can be specified exactly.
proof fn lemma_trunc_rem(y: int, x: int)
    requires
        x != 0,
    ensures
        y == trunc_div_spec(y, x) * x + trunc_rem_spec(y, x),
        y >= 0 ==> trunc_rem_spec(y, x) == y % (if x > 0 {
            x
        } else {
            -x
        }),
        y < 0 ==> trunc_rem_spec(y, x) == -((-y) % (if x > 0 {
            x
        } else {
            -x
        })),
        y >= 0 ==> 0 <= trunc_rem_spec(y, x) < if x > 0 {
            x
        } else {
            -x
        },
        y < 0 ==> -(if x > 0 {
            x
        } else {
            -x
        }) < trunc_rem_spec(y, x) <= 0,
{
    let a = if y >= 0 {
        y
    } else {
        -y
    };
    let d = if x > 0 {
        x
    } else {
        -x
    };
    let q = a / d;
    let m = a % d;
    vstd::arithmetic::div_mod::lemma_fundamental_div_mod(a, d);
    vstd::arithmetic::div_mod::lemma_mod_bound(a, d);
    if y >= 0 && x > 0 {
        assert(y - q * x == m) by (nonlinear_arith)
            requires
                a == d * q + m,
                y == a,
                x == d,
        ;
    } else if y < 0 && x < 0 {
        assert(y - q * x == -m) by (nonlinear_arith)
            requires
                a == d * q + m,
                y == -a,
                x == -d,
        ;
    } else if y < 0 {
        assert(y - (-q) * x == -m) by (nonlinear_arith)
            requires
                a == d * q + m,
                y == -a,
                x == d,
        ;
    } else {
        assert(y - (-q) * x == m) by (nonlinear_arith)
            requires
                a == d * q + m,
                y == a,
                x == -d,
        ;
    }
}

/// Truncating division, defined exactly where Rust's `/` does not overflow.
pub fn trunc_div(y: isize, x: isize) -> (r: isize)
    requires
        x != 0,
        !(y == isize::MIN && x == -1),
    ensures
        r == trunc_div_spec(y as int, x as int),
{
    let r = match y.checked_div(x) {
        Some(q) => q,
        None => 0,  // unreachable under the preconditions
    };
    proof {
        let a: int = if y >= 0 {
            y as int
        } else {
            -(y as int)
        };
        let d: int = if x > 0 {
            x as int
        } else {
            -(x as int)
        };
        vstd::arithmetic::div_mod::lemma_div_pos_is_pos(a, d);
        vstd::arithmetic::div_mod::lemma_div_nonincreasing(a, d);
        if a > 0 && d >= 2 {
            vstd::arithmetic::div_mod::lemma_div_decreases(a, d);
        }
        assert(-(isize::MAX + 1) <= trunc_div_spec(y as int, x as int) <= isize::MAX);
    }
    r
}

/// Floored modulus over machine integers. Defined for every non-zero divisor;
/// the result always fits because it lies strictly between `x` and `-x`.
pub fn floor_mod(y: isize, x: isize) -> (r: isize)
    requires
        x != 0,
    ensures
        r == floor_mod_spec(y as int, x as int),
{
    proof {
        lemma_floor_mod_sign(y as int, x as int);
        lemma_trunc_rem(y as int, x as int);
        lemma_floor_trunc_relation(y as int, x as int);
    }
    match y.checked_rem(x) {
        Some(t) => {
            proof {
                assert(t == trunc_rem_spec(y as int, x as int));
            }
            if t == 0 {
                0
            } else if (t < 0) != (x < 0) {
                t + x
            } else {
                t
            }
        },
        None => {
            // Only y == isize::MIN with x == -1 lands here; the remainder of
            // a division by 1 is zero, so the floored modulus is too.
            proof {
                vstd::arithmetic::div_mod::lemma_fundamental_div_mod(-(y as int), 1);
                vstd::arithmetic::div_mod::lemma_mod_bound(-(y as int), 1);
            }
            0
        },
    }
}

/// The floored modulus equals the truncating remainder when that remainder is
/// zero or shares the divisor's sign, and differs from it by the divisor
/// otherwise.
proof fn lemma_floor_trunc_relation(y: int, x: int)
    requires
        x != 0,
    ensures
        trunc_rem_spec(y, x) == 0 ==> floor_mod_spec(y, x) == 0,
        trunc_rem_spec(y, x) != 0 && ((trunc_rem_spec(y, x) < 0) == (x < 0)) ==> floor_mod_spec(
            y,
            x,
        ) == trunc_rem_spec(y, x),
        trunc_rem_spec(y, x) != 0 && ((trunc_rem_spec(y, x) < 0) != (x < 0)) ==> floor_mod_spec(
            y,
            x,
        ) == trunc_rem_spec(y, x) + x,
{
    let t = trunc_rem_spec(y, x);
    let f = floor_mod_spec(y, x);
    lemma_trunc_rem(y, x);
    lemma_floor_mod_sign(y, x);
    // Both remainders differ from y by a multiple of x, so they differ from
    // each other by a multiple of x; their ranges then pin the difference to
    // 0 or x.
    let q1 = trunc_div_spec(y, x);
    let q2 = floor_div_spec(y, x);
    assert(t - f == (q2 - q1) * x) by {
        assert(t == y - q1 * x);
        assert(f == y - q2 * x);
        assert(t - f == q2 * x - q1 * x);
        assert(q2 * x - q1 * x == (q2 - q1) * x) by {
            vstd::arithmetic::mul::lemma_mul_is_distributive_sub_other_way(x, q2, q1);
        };
    };
    let k = q2 - q1;
    if x > 0 {
        assert(-2 * x < k * x < 2 * x);
        assert(-2 < k < 2) by {
            if k >= 2 {
                vstd::arithmetic::mul::lemma_mul_inequality(2, k, x);
            }
            if k <= -2 {
                vstd::arithmetic::mul::lemma_mul_inequality(k, -2, x);
            }
        };
    } else {
        assert(2 * x < k * x < -2 * x);
        assert(-2 < k < 2) by {
            if k >= 2 {
                vstd::arithmetic::mul::lemma_mul_inequality(2, k, -x);
                assert(2 * (-x) <= k * (-x));
                assert(k * (-x) == -(k * x)) by {
                    vstd::arithmetic::mul::lemma_mul_is_distributive_sub(k, 0, x);
                };
            }
            if k <= -2 {
                vstd::arithmetic::mul::lemma_mul_inequality(k, -2, -x);
                assert(k * (-x) == -(k * x)) by {
                    vstd::arithmetic::mul::lemma_mul_is_distributive_sub(k, 0, x);
                };
            }
        };
    }
    if k == 0 {
        assert(k * x == 0) by (nonlinear_arith)
            requires
                k == 0,
        ;
        assert(t == f);
    } else if k == 1 {
        assert(k * x == x) by (nonlinear_arith)
            requires
                k == 1,
        ;
        assert(t - f == x);
    } else {
        assert(k == -1);
        assert(k * x == -x) by (nonlinear_arith)
            requires
                k == -1,
        ;
        assert(t - f == -x);
    }
}

} // verus!
