//! Scalar fixed-point arithmetic: truncating signed division and the
//! integer square root, with the ordering lemmas the steering proofs need.
use vstd::prelude::*;
use vstd::arithmetic::div_mod::{
    lemma_div_is_ordered, lemma_div_is_ordered_by_denominator, lemma_div_multiples_vanish,
    lemma_div_nonincreasing, lemma_div_pos_is_pos, lemma_fundamental_div_mod,
};

verus! {

/// Truncating division (the behaviour of Rust's `/` on signed integers),
/// defined for positive divisors.
pub open spec fn tdiv(a: int, b: int) -> int {
    if a >= 0 {
        a / b
    } else {
        -((-a) / b)
    }
}

/// Absolute value.
pub open spec fn absi(a: int) -> int {
    if a >= 0 {
        a
    } else {
        -a
    }
}

/// Truncating division of `a` by a positive divisor, as Rust's `/` does it.
pub fn sdiv(a: i64, b: i64) -> (r: i64)
    requires
        b >= 1,
        a > i64::MIN,
    ensures
        r as int == tdiv(a as int, b as int),
{
    if a >= 0 {
        let q: u64 = (a as u64) / (b as u64);
        proof {
            lemma_div_nonincreasing(a as int, b as int);
            lemma_div_pos_is_pos(a as int, b as int);
        }
        q as i64
    } else {
        let m: u64 = ((-a) as u64) / (b as u64);
        proof {
            lemma_div_nonincreasing((-a) as int, b as int);
            lemma_div_pos_is_pos((-a) as int, b as int);
        }
        -(m as i64)
    }
}

/// The magnitude of a truncating quotient is at most `m` when the
/// numerator's magnitude is at most `m * b`.
pub proof fn lemma_tdiv_mag(a: int, b: int, m: int)
    requires
        b >= 1,
        0 <= m,
        absi(a) <= m * b,
    ensures
        absi(tdiv(a, b)) <= m,
        0 <= a ==> 0 <= tdiv(a, b),
        a <= 0 ==> tdiv(a, b) <= 0,
{
    lemma_div_multiples_vanish(m, b);
    assert(m * b == b * m);
    assert((b * m) / b == m);
    if a >= 0 {
        lemma_div_is_ordered(a, b * m, b);
        lemma_div_pos_is_pos(a, b);
        assert(tdiv(a, b) == a / b);
        assert(a / b <= m);
    } else {
        lemma_div_is_ordered(-a, b * m, b);
        lemma_div_pos_is_pos(-a, b);
        assert(tdiv(a, b) == -((-a) / b));
        assert((-a) / b <= m);
    }
}

/// Dividing by a larger positive divisor cannot increase the magnitude
/// of a truncating quotient.
pub proof fn lemma_tdiv_antitone(a: int, b1: int, b2: int)
    requires
        1 <= b1 <= b2,
    ensures
        absi(tdiv(a, b2)) <= absi(tdiv(a, b1)),
{
    if a >= 0 {
        lemma_div_is_ordered_by_denominator(a, b1, b2);
        lemma_div_pos_is_pos(a, b2);
        lemma_div_pos_is_pos(a, b1);
    } else {
        lemma_div_is_ordered_by_denominator(-a, b1, b2);
        lemma_div_pos_is_pos(-a, b2);
        lemma_div_pos_is_pos(-a, b1);
    }
}

/// Strict growth of a truncating quotient as the divisor shrinks: when
/// the numerator is large against both divisors, a strictly closer
/// divisor gives a strictly larger quotient.
pub proof fn lemma_tdiv_strict(a: int, b1: int, b2: int)
    requires
        1 <= b1 < b2,
        a * (b2 - b1) >= b1 * b2,
        a >= 0,
    ensures
        tdiv(a, b1) >= tdiv(a, b2) + 1,
{
    let q2 = a / b2;
    lemma_fundamental_div_mod(a, b2);
    vstd::arithmetic::div_mod::lemma_mod_division_less_than_divisor(a, b2);
    lemma_div_pos_is_pos(a, b2);
    assert(q2 * b2 <= a) by (nonlinear_arith)
        requires
            a == b2 * q2 + a % b2,
            0 <= a % b2,
    ;
    // (q2 + 1) * b1 <= a, because q2 * b1 <= a * b1 / b2 and
    // a * b1 + b1 * b2 <= a * b2.
    assert((q2 + 1) * b1 <= a) by (nonlinear_arith)
        requires
            1 <= b1 < b2,
            a * (b2 - b1) >= b1 * b2,
            q2 >= 0,
            q2 * b2 <= a,
    ;
    lemma_div_multiples_vanish(q2 + 1, b1);
    lemma_div_is_ordered((q2 + 1) * b1, a, b1);
}

/// Multiplying a truncating quotient back by the divisor cannot exceed
/// the numerator in magnitude.
pub proof fn lemma_tdiv_mul_le(a: int, b: int)
    requires
        b >= 1,
    ensures
        absi(tdiv(a, b)) * b <= absi(a),
{
    if a >= 0 {
        lemma_fundamental_div_mod(a, b);
        lemma_mod_bound_nonneg(a, b);
        lemma_div_pos_is_pos(a, b);
        assert(absi(tdiv(a, b)) == a / b);
        assert((a / b) * b <= a) by (nonlinear_arith)
            requires
                a == b * (a / b) + a % b,
                0 <= a % b,
        ;
    } else {
        lemma_fundamental_div_mod(-a, b);
        lemma_mod_bound_nonneg(-a, b);
        lemma_div_pos_is_pos(-a, b);
        assert(absi(tdiv(a, b)) == (-a) / b);
        assert(((-a) / b) * b <= -a) by (nonlinear_arith)
            requires
                -a == b * ((-a) / b) + (-a) % b,
                0 <= (-a) % b,
        ;
    }
}

/// The remainder a truncating division leaves behind is smaller in
/// magnitude than the divisor.
pub proof fn lemma_tdiv_rem(a: int, b: int)
    requires
        b >= 1,
    ensures
        absi(a - tdiv(a, b) * b) < b,
{
    if a >= 0 {
        lemma_fundamental_div_mod(a, b);
        lemma_mod_bound_nonneg(a, b);
        assert(absi(a - tdiv(a, b) * b) < b) by (nonlinear_arith)
            requires
                a >= 0,
                tdiv(a, b) == a / b,
                a == b * (a / b) + a % b,
                0 <= a % b < b,
        ;
    } else {
        lemma_fundamental_div_mod(-a, b);
        lemma_mod_bound_nonneg(-a, b);
        assert(absi(a - tdiv(a, b) * b) < b) by (nonlinear_arith)
            requires
                a < 0,
                tdiv(a, b) == -((-a) / b),
                -a == b * ((-a) / b) + (-a) % b,
                0 <= (-a) % b < b,
        ;
    }
}

/// A Euclidean remainder by a positive divisor lies in `[0, b)`.
pub proof fn lemma_mod_bound_nonneg(a: int, b: int)
    requires
        0 <= a,
        1 <= b,
    ensures
        0 <= a % b < b,
{
    vstd::arithmetic::div_mod::lemma_mod_division_less_than_divisor(a, b);
}

/// `r` is the integer square root of `n`.
pub open spec fn is_sqrt(n: int, r: int) -> bool {
    &&& 0 <= r
    &&& r * r <= n
    &&& n < (r + 1) * (r + 1)
}

/// The integer square root of `n`, as a mathematical value.
pub open spec fn sqrt_of(n: int) -> int {
    choose|r: int| is_sqrt(n, r)
}

/// The integer square root is unique.
pub proof fn lemma_sqrt_unique(n: int, r: int)
    requires
        is_sqrt(n, r),
    ensures
        sqrt_of(n) == r,
{
    let q = sqrt_of(n);
    assert(is_sqrt(n, q));
    assert(q == r) by (nonlinear_arith)
        requires
            0 <= r,
            r * r <= n,
            n < (r + 1) * (r + 1),
            0 <= q,
            q * q <= n,
            n < (q + 1) * (q + 1),
    ;
}

/// Every nonnegative integer has an integer square root.
pub proof fn lemma_sqrt_exists(n: int)
    requires
        0 <= n,
    ensures
        is_sqrt(n, sqrt_of(n)),
    decreases n,
{
    if n == 0 {
        assert(is_sqrt(0, 0));
    } else {
        lemma_sqrt_exists(n - 1);
        let r = sqrt_of(n - 1);
        if (r + 1) * (r + 1) <= n {
            assert(n - 1 < (r + 1) * (r + 1));
            assert(n == (r + 1) * (r + 1));
            assert((r + 1) * (r + 1) < (r + 2) * (r + 2)) by (nonlinear_arith)
                requires
                    r >= 0,
            ;
            assert(is_sqrt(n, r + 1));
        } else {
            assert(is_sqrt(n, r));
        }
    }
}

/// The integer square root is monotone.
pub proof fn lemma_sqrt_monotone(n1: int, n2: int)
    requires
        0 <= n1 <= n2,
        is_sqrt(n1, sqrt_of(n1)),
        is_sqrt(n2, sqrt_of(n2)),
    ensures
        sqrt_of(n1) <= sqrt_of(n2),
{
    let r1 = sqrt_of(n1);
    let r2 = sqrt_of(n2);
    assert(r1 <= r2) by (nonlinear_arith)
        requires
            0 <= r1,
            r1 * r1 <= n1,
            n1 < (r1 + 1) * (r1 + 1),
            0 <= r2,
            r2 * r2 <= n2,
            n2 < (r2 + 1) * (r2 + 1),
            n1 <= n2,
    ;
}

/// Integer square root by bisection.
pub fn isqrt(n: u128) -> (r: u64)
    ensures
        is_sqrt(n as int, r as int),
        sqrt_of(n as int) == r as int,
{
    if n == 0 {
        proof {
            lemma_sqrt_unique(0, 0);
        }
        return 0;
    }
    let mut lo: u128 = 0;
    let mut hi: u128 = 0x1_0000_0000_0000_0000;
    proof {
        assert((n as int) < (0x1_0000_0000_0000_0000int) * (0x1_0000_0000_0000_0000int))
            by (nonlinear_arith)
            requires
                n <= u128::MAX,
        ;
    }
    while lo + 1 < hi
        invariant
            0 <= lo < hi <= 0x1_0000_0000_0000_0000,
            (lo as int) * (lo as int) <= n as int,
            (n as int) < (hi as int) * (hi as int),
        decreases hi - lo,
    {
        let mid: u128 = lo + (hi - lo) / 2;
        assert(lo < mid < hi);
        proof {
            assert((mid as int) * (mid as int) <= u128::MAX) by (nonlinear_arith)
                requires
                    0 <= mid as int <= 0xffff_ffff_ffff_ffff,
            ;
        }
        let sq: u128 = mid * mid;
        if sq <= n {
            lo = mid;
        } else {
            hi = mid;
        }
    }
    assert(hi == lo + 1);
    proof {
        lemma_sqrt_unique(n as int, lo as int);
    }
    lo as u64
}

} // verus!
