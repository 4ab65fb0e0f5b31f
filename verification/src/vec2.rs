//! Fixed-point 2D vectors: length, normalize-or-zero and length
//! clamping, each pinned to a mathematical model, with the magnitude
//! bounds the steering invariants rest on.
use crate::num::{
    absi, is_sqrt, isqrt, lemma_sqrt_unique, lemma_tdiv_mag, lemma_tdiv_mul_le, lemma_tdiv_rem,
    sdiv, sqrt_of, tdiv,
};
use crate::SCALE;
use vstd::prelude::*;
use vstd::arithmetic::mul::lemma_mul_inequality;

verus! {

/// Mathematical 2D vector.
pub ghost struct V2 {
    pub x: int,
    pub y: int,
}

/// Executable 2D vector in raw fixed-point units.
#[derive(Clone, Copy, PartialEq, Eq, Structural, Debug)]
pub struct Vec2 {
    pub x: i64,
    pub y: i64,
}

impl View for Vec2 {
    type V = V2;

    open spec fn view(&self) -> V2 {
        V2 { x: self.x as int, y: self.y as int }
    }
}

pub open spec fn v2(x: int, y: int) -> V2 {
    V2 { x: x, y: y }
}

pub open spec fn v2_zero() -> V2 {
    V2 { x: 0, y: 0 }
}

pub open spec fn v2_add(a: V2, b: V2) -> V2 {
    V2 { x: a.x + b.x, y: a.y + b.y }
}

pub open spec fn v2_sub(a: V2, b: V2) -> V2 {
    V2 { x: a.x - b.x, y: a.y - b.y }
}

pub open spec fn v2_neg(a: V2) -> V2 {
    V2 { x: -a.x, y: -a.y }
}

/// Squared Euclidean length.
pub open spec fn len2(a: V2) -> int {
    a.x * a.x + a.y * a.y
}

/// Squared Euclidean distance.
pub open spec fn dist2(a: V2, b: V2) -> int {
    len2(v2_sub(a, b))
}

/// Both coordinates bounded by `m` in magnitude.
pub open spec fn v2_bounded(a: V2, m: int) -> bool {
    absi(a.x) <= m && absi(a.y) <= m
}

/// Scale `v` by the ratio `num / den`, truncating per coordinate.
pub open spec fn scale_div_spec(v: V2, num: int, den: int) -> V2 {
    V2 { x: tdiv(v.x * num, den), y: tdiv(v.y * num, den) }
}

/// Normalize to (fixed-point) unit length; the zero vector stays zero.
pub open spec fn norm_spec(v: V2) -> V2 {
    if v.x == 0 && v.y == 0 {
        v2_zero()
    } else {
        scale_div_spec(v, SCALE as int, sqrt_of(len2(v)))
    }
}

/// Clamp the Euclidean length of `v` into `[lo, hi]`; a vector of
/// length zero stays zero, having no direction to keep.
pub open spec fn clamp_len_spec(v: V2, lo: int, hi: int) -> V2 {
    let l = sqrt_of(len2(v));
    if v.x == 0 && v.y == 0 {
        v2_zero()
    } else if l < lo {
        scale_div_spec(v, lo, l)
    } else if l > hi {
        scale_div_spec(v, hi, l)
    } else {
        v
    }
}

impl Vec2 {
    /// The zero vector.
    pub fn zero() -> (r: Vec2)
        ensures
            r@ == v2_zero(),
    {
        Vec2 { x: 0, y: 0 }
    }

    /// Component-wise sum.
    pub fn add(self, o: Vec2) -> (r: Vec2)
        requires
            i64::MIN <= self.x + o.x <= i64::MAX,
            i64::MIN <= self.y + o.y <= i64::MAX,
        ensures
            r@ == v2_add(self@, o@),
    {
        Vec2 { x: self.x + o.x, y: self.y + o.y }
    }

    /// Component-wise difference.
    pub fn sub(self, o: Vec2) -> (r: Vec2)
        requires
            i64::MIN <= self.x - o.x <= i64::MAX,
            i64::MIN <= self.y - o.y <= i64::MAX,
        ensures
            r@ == v2_sub(self@, o@),
    {
        Vec2 { x: self.x - o.x, y: self.y - o.y }
    }

    /// Component-wise negation.
    pub fn neg(self) -> (r: Vec2)
        requires
            self.x > i64::MIN,
            self.y > i64::MIN,
        ensures
            r@ == v2_neg(self@),
    {
        Vec2 { x: -self.x, y: -self.y }
    }

    /// Squared Euclidean length.
    pub fn len2(self) -> (n: u128)
        ensures
            n as int == len2(self@),
    {
        let ax: u128 = if self.x >= 0 {
            self.x as u128
        } else {
            (-(self.x as i128)) as u128
        };
        let ay: u128 = if self.y >= 0 {
            self.y as u128
        } else {
            (-(self.y as i128)) as u128
        };
        proof {
            assert(ax as int == absi(self.x as int));
            assert(ay as int == absi(self.y as int));
            assert(absi(self.x as int) * absi(self.x as int) == (self.x as int) * (self.x as int))
                by (nonlinear_arith);
            assert(absi(self.y as int) * absi(self.y as int) == (self.y as int) * (self.y as int))
                by (nonlinear_arith);
            assert((ax as int) * (ax as int) + (ay as int) * (ay as int) <= u128::MAX)
                by (nonlinear_arith)
                requires
                    0 <= ax as int <= 0x8000_0000_0000_0000,
                    0 <= ay as int <= 0x8000_0000_0000_0000,
            ;
        }
        ax * ax + ay * ay
    }

    /// Euclidean length, rounded down to raw units.
    pub fn length(self) -> (l: u64)
        ensures
            is_sqrt(len2(self@), l as int),
            l as int == sqrt_of(len2(self@)),
    {
        isqrt(self.len2())
    }

    /// Scale by the ratio `num / den`, truncating per coordinate.
    pub fn scale_div(self, num: i64, den: i64) -> (r: Vec2)
        requires
            den >= 1,
            num >= 0,
            -i64::MAX <= self.x * num <= i64::MAX,
            -i64::MAX <= self.y * num <= i64::MAX,
        ensures
            r@ == scale_div_spec(self@, num as int, den as int),
    {
        Vec2 { x: sdiv(self.x * num, den), y: sdiv(self.y * num, den) }
    }

    /// Normalize to (fixed-point) unit length; the zero vector stays zero.
    pub fn normalize_or_zero(self) -> (r: Vec2)
        requires
            v2_bounded(self@, NORM_LIMIT as int),
        ensures
            r@ == norm_spec(self@),
            v2_bounded(r@, SCALE as int),
    {
        if self.x == 0 && self.y == 0 {
            Vec2 { x: 0, y: 0 }
        } else {
            let l = self.length();
            proof {
                assert(len2(self@) > 0) by (nonlinear_arith)
                    requires
                        self@.x != 0 || self@.y != 0,
                        len2(self@) == self@.x * self@.x + self@.y * self@.y,
                ;
                lemma_coords_le_sqrt(self@);
                assert(l as int <= 2_000_000_000_000) by (nonlinear_arith)
                    requires
                        0 <= l as int,
                        (l as int) * (l as int) <= len2(self@),
                        len2(self@) == self@.x * self@.x + self@.y * self@.y,
                        absi(self@.x) <= NORM_LIMIT as int,
                        absi(self@.y) <= NORM_LIMIT as int,
                        NORM_LIMIT == 1_000_000_000_000i64,
                ;
                lemma_mul_inequality(absi(self@.x), l as int, SCALE as int);
                lemma_mul_inequality(absi(self@.y), l as int, SCALE as int);
                assert(absi(self@.x * SCALE) <= (l as int) * SCALE) by (nonlinear_arith)
                    requires
                        absi(self@.x) * (SCALE as int) <= (l as int) * (SCALE as int),
                        absi(self@.x) <= l as int,
                ;
                assert(absi(self@.y * SCALE) <= (l as int) * SCALE) by (nonlinear_arith)
                    requires
                        absi(self@.y) * (SCALE as int) <= (l as int) * (SCALE as int),
                        absi(self@.y) <= l as int,
                ;
                lemma_tdiv_mag(self@.x * SCALE, l as int, SCALE as int);
                lemma_tdiv_mag(self@.y * SCALE, l as int, SCALE as int);
            }
            self.scale_div(SCALE, l as i64)
        }
    }

    /// Clamp the Euclidean length into `[lo, hi]`.
    pub fn clamp_length(self, lo: i64, hi: i64) -> (r: Vec2)
        requires
            0 <= lo <= hi,
            hi <= crate::FACTOR_LIMIT,
            v2_bounded(self@, CLAMP_IN_LIMIT as int),
        ensures
            r@ == clamp_len_spec(self@, lo as int, hi as int),
            v2_bounded(r@, hi as int),
    {
        if self.x == 0 && self.y == 0 {
            proof {
                lemma_clamp_len_coords(self@, lo as int, hi as int);
            }
            Vec2 { x: 0, y: 0 }
        } else {
            let l = self.length();
            proof {
                assert(len2(self@) > 0) by (nonlinear_arith)
                    requires
                        self@.x != 0 || self@.y != 0,
                        len2(self@) == self@.x * self@.x + self@.y * self@.y,
                ;
                lemma_coords_le_sqrt(self@);
                assert(l as int <= 8_000_000_000_000) by (nonlinear_arith)
                    requires
                        0 <= l as int,
                        (l as int) * (l as int) <= len2(self@),
                        len2(self@) == self@.x * self@.x + self@.y * self@.y,
                        absi(self@.x) <= CLAMP_IN_LIMIT as int,
                        absi(self@.y) <= CLAMP_IN_LIMIT as int,
                        CLAMP_IN_LIMIT == 4_000_000_000_000i64,
                ;
                lemma_clamp_len_coords(self@, lo as int, hi as int);
            }
            if (l as i64) < lo {
                proof {
                    lemma_scale_mul_fits(self@, lo as int, l as int);
                }
                self.scale_div(lo, l as i64)
            } else if (l as i64) > hi {
                proof {
                    lemma_scale_mul_fits(self@, hi as int, l as int);
                }
                self.scale_div(hi, l as i64)
            } else {
                self
            }
        }
    }

    /// Clamp the Euclidean length to at most `hi`.
    pub fn clamp_length_max(self, hi: i64) -> (r: Vec2)
        requires
            0 <= hi <= crate::FACTOR_LIMIT,
            v2_bounded(self@, CLAMP_IN_LIMIT as int),
        ensures
            r@ == clamp_len_spec(self@, 0, hi as int),
            v2_bounded(r@, hi as int),
    {
        self.clamp_length(0, hi)
    }
}

/// Largest coordinate magnitude `normalize_or_zero` accepts.
pub const NORM_LIMIT: i64 = 1_000_000_000_000;

/// Largest coordinate magnitude `clamp_length` accepts.
pub const CLAMP_IN_LIMIT: i64 = 4_000_000_000_000;

/// Products formed inside a length clamp stay within `i64`.
proof fn lemma_scale_mul_fits(v: V2, t: int, l: int)
    requires
        1 <= l,
        0 <= t <= crate::FACTOR_LIMIT,
        v2_bounded(v, CLAMP_IN_LIMIT as int),
    ensures
        -i64::MAX <= v.x * t <= i64::MAX,
        -i64::MAX <= v.y * t <= i64::MAX,
{
    lemma_mul_inequality(absi(v.x), CLAMP_IN_LIMIT as int, t);
    assert(absi(v.x * t) == absi(v.x) * t) by (nonlinear_arith)
        requires
            t >= 0,
    ;
    assert(absi(v.x) * t <= (CLAMP_IN_LIMIT as int) * t) by (nonlinear_arith)
        requires
            absi(v.x) <= CLAMP_IN_LIMIT as int,
            t >= 0,
    ;
    assert((CLAMP_IN_LIMIT as int) * t <= (CLAMP_IN_LIMIT as int) * (crate::FACTOR_LIMIT as int))
        by (nonlinear_arith)
        requires
            0 <= t <= crate::FACTOR_LIMIT as int,
    ;
    assert(absi(v.y * t) == absi(v.y) * t) by (nonlinear_arith)
        requires
            t >= 0,
    ;
    assert(absi(v.y) * t <= (CLAMP_IN_LIMIT as int) * t) by (nonlinear_arith)
        requires
            absi(v.y) <= CLAMP_IN_LIMIT as int,
            t >= 0,
    ;
}

/// Each coordinate is bounded by the vector's integer-square-root length.
pub proof fn lemma_coords_le_sqrt(v: V2)
    requires
        len2(v) > 0,
        is_sqrt(len2(v), sqrt_of(len2(v))),
    ensures
        absi(v.x) <= sqrt_of(len2(v)),
        absi(v.y) <= sqrt_of(len2(v)),
        sqrt_of(len2(v)) >= 1,
{
    let l = sqrt_of(len2(v));
    assert(absi(v.x) <= l && absi(v.y) <= l && l >= 1) by (nonlinear_arith)
        requires
            0 <= l,
            l * l <= len2(v),
            len2(v) < (l + 1) * (l + 1),
            len2(v) == v.x * v.x + v.y * v.y,
            len2(v) > 0,
    ;
}

/// Scaling a vector by `t / l`, where `l` is its integer length and
/// `l >= t`, yields a vector of squared length at most `(t + 1)^2`.
pub proof fn lemma_scaled_len2_upper(v: V2, t: int)
    requires
        len2(v) > 0,
        0 <= t,
        is_sqrt(len2(v), sqrt_of(len2(v))),
        sqrt_of(len2(v)) >= t,
    ensures
        len2(scale_div_spec(v, t, sqrt_of(len2(v)))) <= (t + 1) * (t + 1),
{
    let l = sqrt_of(len2(v));
    lemma_coords_le_sqrt(v);
    let n = scale_div_spec(v, t, l);
    lemma_tdiv_mul_le(v.x * t, l);
    lemma_tdiv_mul_le(v.y * t, l);
    assert(n.x * n.x * (l * l) <= (v.x * t) * (v.x * t)) by (nonlinear_arith)
        requires
            l >= 1,
            absi(n.x) * l <= absi(v.x * t),
    ;
    assert(n.y * n.y * (l * l) <= (v.y * t) * (v.y * t)) by (nonlinear_arith)
        requires
            l >= 1,
            absi(n.y) * l <= absi(v.y * t),
    ;
    assert((v.x * t) * (v.x * t) + (v.y * t) * (v.y * t) == (t * t) * len2(v))
        by (nonlinear_arith)
        requires
            len2(v) == v.x * v.x + v.y * v.y,
    ;
    assert(len2(n) * (l * l) <= (t * t) * len2(v)) by (nonlinear_arith)
        requires
            n.x * n.x * (l * l) <= (v.x * t) * (v.x * t),
            n.y * n.y * (l * l) <= (v.y * t) * (v.y * t),
            (v.x * t) * (v.x * t) + (v.y * t) * (v.y * t) == (t * t) * len2(v),
            len2(n) == n.x * n.x + n.y * n.y,
            l >= 1,
    ;
    assert(len2(v) <= l * l + 2 * l) by (nonlinear_arith)
        requires
            len2(v) < (l + 1) * (l + 1),
    ;
    assert(len2(n) <= (t + 1) * (t + 1)) by (nonlinear_arith)
        requires
            len2(n) * (l * l) <= (t * t) * len2(v),
            len2(v) <= l * l + 2 * l,
            l >= t >= 0,
            l >= 1,
    ;
}

/// Scaling a vector by `t / l`, where `l` is its integer length, yields
/// a vector of squared length at least `t^2 - 4t`.
pub proof fn lemma_scaled_len2_lower(v: V2, t: int)
    requires
        len2(v) > 0,
        0 <= t,
        is_sqrt(len2(v), sqrt_of(len2(v))),
    ensures
        len2(scale_div_spec(v, t, sqrt_of(len2(v)))) >= t * t - 4 * t,
{
    let l = sqrt_of(len2(v));
    lemma_coords_le_sqrt(v);
    let n = scale_div_spec(v, t, l);
    lemma_tdiv_rem(v.x * t, l);
    lemma_tdiv_rem(v.y * t, l);
    assert(n.x * n.x * (l * l) >= (v.x * t) * (v.x * t) - 2 * absi(v.x * t) * l)
        by (nonlinear_arith)
        requires
            l >= 1,
            absi(v.x * t - n.x * l) < l,
    ;
    assert(n.y * n.y * (l * l) >= (v.y * t) * (v.y * t) - 2 * absi(v.y * t) * l)
        by (nonlinear_arith)
        requires
            l >= 1,
            absi(v.y * t - n.y * l) < l,
    ;
    assert(absi(v.x * t) <= l * t && absi(v.y * t) <= l * t) by (nonlinear_arith)
        requires
            absi(v.x) <= l,
            absi(v.y) <= l,
            t >= 0,
    ;
    assert(2 * absi(v.x * t) * l <= 2 * t * (l * l)) by (nonlinear_arith)
        requires
            absi(v.x * t) <= l * t,
            l >= 1,
    ;
    assert(2 * absi(v.y * t) * l <= 2 * t * (l * l)) by (nonlinear_arith)
        requires
            absi(v.y * t) <= l * t,
            l >= 1,
    ;
    assert((v.x * t) * (v.x * t) + (v.y * t) * (v.y * t) == (t * t) * len2(v))
        by (nonlinear_arith)
        requires
            len2(v) == v.x * v.x + v.y * v.y,
    ;
    assert(len2(n) * (l * l) >= (t * t) * len2(v) - 4 * t * (l * l)) by (nonlinear_arith)
        requires
            n.x * n.x * (l * l) >= (v.x * t) * (v.x * t) - 2 * absi(v.x * t) * l,
            n.y * n.y * (l * l) >= (v.y * t) * (v.y * t) - 2 * absi(v.y * t) * l,
            2 * absi(v.x * t) * l <= 2 * t * (l * l),
            2 * absi(v.y * t) * l <= 2 * t * (l * l),
            (v.x * t) * (v.x * t) + (v.y * t) * (v.y * t) == (t * t) * len2(v),
            len2(n) == n.x * n.x + n.y * n.y,
    ;
    assert(len2(n) >= t * t - 4 * t) by (nonlinear_arith)
        requires
            len2(n) * (l * l) >= (t * t) * len2(v) - 4 * t * (l * l),
            len2(v) >= l * l,
            l >= 1,
            t >= 0,
    ;
}

/// A clamped vector's coordinates are bounded by the upper band edge.
pub proof fn lemma_clamp_len_coords(v: V2, lo: int, hi: int)
    requires
        0 <= lo <= hi,
    ensures
        len2(v) > 0 && is_sqrt(len2(v), sqrt_of(len2(v))) ==> v2_bounded(
            clamp_len_spec(v, lo, hi),
            hi,
        ),
        v.x == 0 && v.y == 0 ==> clamp_len_spec(v, lo, hi) == v2_zero(),
{
    if !(v.x == 0 && v.y == 0) && len2(v) > 0 && is_sqrt(len2(v), sqrt_of(len2(v))) {
        let l = sqrt_of(len2(v));
        lemma_coords_le_sqrt(v);
        if l < lo {
            lemma_scale_div_coords(v, lo, l);
        } else if l > hi {
            lemma_scale_div_coords(v, hi, l);
        } else {
            assert(absi(v.x) <= hi && absi(v.y) <= hi);
        }
    }
}

/// Coordinates of a `t / l` scaling stay within `t` when the input's
/// coordinates stay within `l`.
pub proof fn lemma_scale_div_coords(v: V2, t: int, l: int)
    requires
        l >= 1,
        t >= 0,
        absi(v.x) <= l,
        absi(v.y) <= l,
    ensures
        v2_bounded(scale_div_spec(v, t, l), t),
{
    assert(absi(v.x * t) <= t * l && absi(v.y * t) <= t * l) by (nonlinear_arith)
        requires
            absi(v.x) <= l,
            absi(v.y) <= l,
            t >= 0,
    ;
    lemma_tdiv_mag(v.x * t, l, t);
    lemma_tdiv_mag(v.y * t, l, t);
}

/// The squared length of a clamped vector lies in the clamp band, up to
/// the truncation slack of fixed-point scaling; a zero vector stays zero.
pub proof fn lemma_clamp_len_band(v: V2, lo: int, hi: int)
    requires
        0 <= lo <= hi,
        is_sqrt(len2(v), sqrt_of(len2(v))),
    ensures
        v.x == 0 && v.y == 0 ==> clamp_len_spec(v, lo, hi) == v2_zero(),
        !(v.x == 0 && v.y == 0) ==> len2(clamp_len_spec(v, lo, hi)) >= lo * lo - 4 * lo,
        len2(v) >= lo * lo ==> len2(clamp_len_spec(v, lo, hi)) <= (hi + 1) * (hi + 1),
        len2(v) < lo * lo ==> len2(clamp_len_spec(v, lo, hi)) <= 2 * (lo * lo),
{
    if v.x == 0 && v.y == 0 {
        assert(len2(v2_zero()) == 0);
        assert(len2(v) == 0) by (nonlinear_arith)
            requires
                v.x == 0 && v.y == 0,
                len2(v) == v.x * v.x + v.y * v.y,
        ;
        assert(lo * lo >= 0) by (nonlinear_arith);
    } else {
        assert(len2(v) > 0) by (nonlinear_arith)
            requires
                v.x != 0 || v.y != 0,
                len2(v) == v.x * v.x + v.y * v.y,
        ;
        let l = sqrt_of(len2(v));
        lemma_coords_le_sqrt(v);
        let w = clamp_len_spec(v, lo, hi);
        // The branch on l agrees with the band test on len2.
        assert(l < lo <==> len2(v) < lo * lo) by (nonlinear_arith)
            requires
                0 <= l,
                l * l <= len2(v),
                len2(v) < (l + 1) * (l + 1),
                0 <= lo,
        ;
        if l < lo {
            lemma_scaled_len2_lower(v, lo);
            lemma_scale_div_coords(v, lo, l);
            assert(len2(w) <= 2 * (lo * lo)) by (nonlinear_arith)
                requires
                    absi(w.x) <= lo,
                    absi(w.y) <= lo,
                    len2(w) == w.x * w.x + w.y * w.y,
            ;
        } else if l > hi {
            lemma_scaled_len2_lower(v, hi);
            lemma_scaled_len2_upper(v, hi);
            assert(len2(w) >= 0) by (nonlinear_arith)
                requires
                    len2(w) == w.x * w.x + w.y * w.y,
            ;
            assert(len2(w) >= lo * lo - 4 * lo) by (nonlinear_arith)
                requires
                    0 <= lo <= hi,
                    len2(w) >= hi * hi - 4 * hi,
                    len2(w) >= 0,
            ;
            assert(len2(v) >= lo * lo) by (nonlinear_arith)
                requires
                    hi < l,
                    0 <= lo <= hi,
                    l * l <= len2(v),
            ;
        } else {
            assert(len2(w) == len2(v));
            assert(len2(v) >= lo * lo && len2(v) <= (hi + 1) * (hi + 1)) by (nonlinear_arith)
                requires
                    lo <= l <= hi,
                    0 <= lo,
                    l * l <= len2(v),
                    len2(v) < (l + 1) * (l + 1),
            ;
            assert(lo * lo - 4 * lo <= lo * lo) by (nonlinear_arith)
                requires
                    0 <= lo,
            ;
        }
    }
}

/// Normalizing the zero vector yields the zero vector; normalizing any
/// other vector yields fixed-point unit length, up to truncation slack:
/// the squared length lands within `4 * SCALE` of `SCALE^2`, the upper
/// half for inputs at least one world unit long.
pub proof fn lemma_norm_unit_band(v: V2)
    requires
        is_sqrt(len2(v), sqrt_of(len2(v))),
    ensures
        v.x == 0 && v.y == 0 ==> norm_spec(v) == v2_zero(),
        !(v.x == 0 && v.y == 0) ==> len2(norm_spec(v)) >= SCALE * SCALE - 4 * SCALE,
        len2(v) >= SCALE * SCALE ==> len2(norm_spec(v)) <= (SCALE + 1) * (SCALE + 1),
{
    let s = SCALE as int;
    if v.x == 0 && v.y == 0 {
    } else {
        assert(len2(v) > 0) by (nonlinear_arith)
            requires
                v.x != 0 || v.y != 0,
                len2(v) == v.x * v.x + v.y * v.y,
        ;
        lemma_scaled_len2_lower(v, s);
        if len2(v) >= s * s {
            let l = sqrt_of(len2(v));
            assert(l >= s) by (nonlinear_arith)
                requires
                    0 <= l,
                    len2(v) < (l + 1) * (l + 1),
                    len2(v) >= s * s,
                    s >= 0,
            ;
            lemma_scaled_len2_upper(v, s);
        }
    }
}

} // verus!
