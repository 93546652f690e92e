//! Scalar helpers: truncating division and an integer square root.
//!
//! Sweep times of impact and partial advances are rational values; the
//! executable code rounds them toward zero, and every contract states the
//! rounded value exactly through `div_tz`.

use vstd::prelude::*;
use vstd::arithmetic::div_mod::lemma_div_is_ordered;
use vstd::arithmetic::div_mod::lemma_div_pos_is_pos;
use vstd::arithmetic::div_mod::lemma_fundamental_div_mod;
use vstd::arithmetic::div_mod::lemma_mod_bound;

verus! {

/// Quotient of `a` by `b` rounded toward zero, for a positive divisor.
/// (Spec-level `/` on `int` rounds toward negative infinity; executable
/// integer division truncates, and this is the matching spec function.)
pub open spec fn div_tz(a: int, b: int) -> int
    recommends
        b > 0,
{
    if a >= 0 {
        a / b
    } else {
        -((-a) / b)
    }
}

/// If `a <= c * b` with `c >= 0`, the truncated quotient is at most `c`.
pub proof fn lemma_div_tz_le(a: int, c: int, b: int)
    requires
        b > 0,
        a <= c * b,
        0 <= c,
    ensures
        div_tz(a, b) <= c,
{
    if a >= 0 {
        lemma_div_is_ordered(a, c * b, b);
        assert(c * b / b == c) by (nonlinear_arith)
            requires
                b > 0,
        ;
    } else {
        lemma_div_pos_is_pos(-a, b);
    }
}

/// If `a >= -(c * b)` with `c >= 0`, the truncated quotient is at least `-c`.
pub proof fn lemma_div_tz_ge_neg(a: int, c: int, b: int)
    requires
        b > 0,
        -(c * b) <= a,
        0 <= c,
    ensures
        -c <= div_tz(a, b),
{
    if a >= 0 {
        lemma_div_pos_is_pos(a, b);
    } else {
        lemma_div_is_ordered(-a, c * b, b);
        assert(c * b / b == c) by (nonlinear_arith)
            requires
                b > 0,
        ;
    }
}

/// Multiplying back a truncated nonnegative quotient stays below the
/// dividend: `div_tz(a, b) * b <= a` when `a >= 0`.
pub proof fn lemma_div_tz_mul_back(a: int, b: int)
    requires
        b > 0,
        a >= 0,
    ensures
        div_tz(a, b) * b <= a,
        div_tz(a, b) >= 0,
{
    lemma_fundamental_div_mod(a, b);
    lemma_mod_bound(a, b);
    lemma_div_pos_is_pos(a, b);
    assert(a / b * b <= a) by (nonlinear_arith)
        requires
            b > 0,
            a >= 0,
            a == b * (a / b) + a % b,
            a % b >= 0,
    ;
}

/// Truncating division is odd in its dividend.
pub proof fn lemma_div_tz_neg(a: int, b: int)
    requires
        b > 0,
    ensures
        div_tz(-a, b) == -div_tz(a, b),
{
}

/// Truncating division of a signed dividend by a positive divisor, computed
/// through unsigned machine division.
pub fn div_trunc(a: i64, b: i64) -> (r: i64)
    requires
        b > 0,
        a > i64::MIN,
    ensures
        r == div_tz(a as int, b as int),
{
    if a >= 0 {
        proof {
            assert(a as int <= (a as int) * (b as int)) by (nonlinear_arith)
                requires
                    a >= 0,
                    b >= 1,
            ;
            lemma_div_tz_le(a as int, a as int, b as int);
            lemma_div_pos_is_pos(a as int, b as int);
        }
        let q: u64 = (a as u64) / (b as u64);
        q as i64
    } else {
        let na: i64 = -a;
        proof {
            assert(na as int <= (na as int) * (b as int)) by (nonlinear_arith)
                requires
                    na >= 0,
                    b >= 1,
            ;
            lemma_div_tz_le(na as int, na as int, b as int);
            lemma_div_pos_is_pos(na as int, b as int);
        }
        let q: u64 = (na as u64) / (b as u64);
        -(q as i64)
    }
}

/// Square root rounded down, at the specification level: the unique `r`
/// with `r * r <= n < (r + 1) * (r + 1)` for nonnegative `n`.
pub open spec fn sqrt_floor(n: int) -> int
    decreases n,
{
    if n <= 0 {
        0
    } else {
        let r = sqrt_floor(n - 1);
        if (r + 1) * (r + 1) <= n {
            r + 1
        } else {
            r
        }
    }
}

/// `sqrt_floor` brackets its argument between consecutive squares.
pub proof fn lemma_sqrt_floor_bounds(n: int)
    requires
        0 <= n,
    ensures
        0 <= sqrt_floor(n),
        sqrt_floor(n) * sqrt_floor(n) <= n,
        n < (sqrt_floor(n) + 1) * (sqrt_floor(n) + 1),
    decreases n,
{
    if n == 0 {
        assert(sqrt_floor(0) == 0);
    } else {
        lemma_sqrt_floor_bounds(n - 1);
        let r = sqrt_floor(n - 1);
        if (r + 1) * (r + 1) <= n {
            assert(n - 1 < (r + 1) * (r + 1));
            assert(n < (r + 2) * (r + 2)) by (nonlinear_arith)
                requires
                    n <= (r + 1) * (r + 1),
                    0 <= r,
            ;
        }
    }
}

/// Any integer bracketed between the same consecutive squares is the
/// rounded-down square root.
pub proof fn lemma_sqrt_floor_unique(n: int, r: int)
    requires
        0 <= n,
        0 <= r,
        r * r <= n,
        n < (r + 1) * (r + 1),
    ensures
        sqrt_floor(n) == r,
{
    lemma_sqrt_floor_bounds(n);
    assert(sqrt_floor(n) == r) by (nonlinear_arith)
        requires
            0 <= r,
            r * r <= n,
            n < (r + 1) * (r + 1),
            0 <= sqrt_floor(n),
            sqrt_floor(n) * sqrt_floor(n) <= n,
            n < (sqrt_floor(n) + 1) * (sqrt_floor(n) + 1),
    ;
}

/// Integer square root, rounded down.
///
/// Used to turn a displacement vector into the scalar travel distance that
/// the resolution loop books against.
pub fn isqrt(n: u64) -> (r: u64)
    requires
        n < 4_000_000_000_000_000_000,
    ensures
        r * r <= n,
        n < (r + 1) * (r + 1),
        r <= 2_000_000_000,
        r == sqrt_floor(n as int),
{
    let mut lo: u64 = 0;
    let mut hi: u64 = 2_000_000_000;
    assert(hi * hi > n) by (nonlinear_arith)
        requires
            hi == 2_000_000_000,
            n < 4_000_000_000_000_000_000,
    ;
    while lo + 1 < hi
        invariant
            lo < hi,
            hi <= 2_000_000_000,
            lo * lo <= n,
            n < hi * hi,
        decreases hi - lo,
    {
        let mid: u64 = lo + (hi - lo) / 2;
        assert(mid * mid <= 4_000_000_000_000_000_000) by (nonlinear_arith)
            requires
                mid <= 2_000_000_000,
        ;
        if mid * mid <= n {
            lo = mid;
        } else {
            hi = mid;
        }
    }
    proof {
        lemma_sqrt_floor_unique(n as int, lo as int);
    }
    lo
}

} // verus!
