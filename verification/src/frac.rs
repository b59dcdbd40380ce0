use vstd::prelude::*;

verus! {

/// Bound on the numerator magnitude and denominator of any rational that
/// is ever handed to an exact comparison: the cross products of a
/// comparison then stay below `i128::MAX`.
pub const RAT_MAX: i128 = 10_000_000_000_000_000_000;

/// An exact rational number `num / den` with `den > 0`.
///
/// Ray parameters (hit distances) are rationals: a slab boundary is
/// `(min - origin) / direction` and a triangle hit parameter is a ratio of
/// two determinants. Representing them exactly is what lets the pruning
/// and nearest-hit selection of the BVH be proved equivalent to a linear
/// scan, with no epsilon anywhere.
#[derive(Clone, Copy, PartialEq, Eq, Structural, Debug)]
pub struct Frac {
    pub num: i128,
    pub den: i128,
}

/// A point with exact rational coordinates (a hit position).
#[derive(Clone, Copy, PartialEq, Eq, Structural, Debug)]
pub struct RVec3 {
    pub x: Frac,
    pub y: Frac,
    pub z: Frac,
}

/// `an/ad <= bn/bd`, stated over cross products (`ad > 0`, `bd > 0`).
pub open spec fn rat_le(an: int, ad: int, bn: int, bd: int) -> bool
    recommends
        ad > 0,
        bd > 0,
{
    an * bd <= bn * ad
}

/// `an/ad < bn/bd` (`ad > 0`, `bd > 0`).
pub open spec fn rat_lt(an: int, ad: int, bn: int, bd: int) -> bool
    recommends
        ad > 0,
        bd > 0,
{
    an * bd < bn * ad
}

impl Frac {
    pub open spec fn wf(self) -> bool {
        0 < self.den
    }

    /// Small enough for exact comparison by cross multiplication.
    pub open spec fn bounded(self) -> bool {
        &&& -(RAT_MAX as int) <= self.num as int <= RAT_MAX as int
        &&& self.den as int <= RAT_MAX as int
    }

    pub open spec fn spec_le(self, o: Frac) -> bool {
        rat_le(self.num as int, self.den as int, o.num as int, o.den as int)
    }

    pub open spec fn spec_lt(self, o: Frac) -> bool {
        rat_lt(self.num as int, self.den as int, o.num as int, o.den as int)
    }

    /// Equal as rational numbers (the representation may differ).
    pub open spec fn spec_eq(self, o: Frac) -> bool {
        self.num as int * o.den as int == o.num as int * self.den as int
    }

    /// Exact `self <= o`, by cross multiplication.
    pub fn le(self, o: Frac) -> (r: bool)
        requires
            self.wf(),
            o.wf(),
            self.bounded(),
            o.bounded(),
        ensures
            r == self.spec_le(o),
    {
        proof {
            lemma_mul_bound(self.num as int, o.den as int, RAT_MAX as int, RAT_MAX as int);
            lemma_mul_bound(o.num as int, self.den as int, RAT_MAX as int, RAT_MAX as int);
        }
        self.num * o.den <= o.num * self.den
    }

    /// Exact `self < o`, by cross multiplication.
    pub fn lt(self, o: Frac) -> (r: bool)
        requires
            self.wf(),
            o.wf(),
            self.bounded(),
            o.bounded(),
        ensures
            r == self.spec_lt(o),
    {
        proof {
            lemma_mul_bound(self.num as int, o.den as int, RAT_MAX as int, RAT_MAX as int);
            lemma_mul_bound(o.num as int, self.den as int, RAT_MAX as int, RAT_MAX as int);
        }
        self.num * o.den < o.num * self.den
    }
}

/// `|a| <= ma` and `|b| <= mb` bound the product by `ma * mb`.
pub proof fn lemma_mul_bound(a: int, b: int, ma: int, mb: int)
    by (nonlinear_arith)
    requires
        -ma <= a <= ma,
        -mb <= b <= mb,
    ensures
        -(ma * mb) <= a * b <= ma * mb,
{
}

/// Multiplying both sides of `a <= b` by `c >= 0` keeps the order.
pub proof fn lemma_mul_le(a: int, b: int, c: int)
    by (nonlinear_arith)
    requires
        a <= b,
        c >= 0,
    ensures
        a * c <= b * c,
{
}

/// Dividing both sides of `a * c <= b * c` by `c > 0` keeps the order.
pub proof fn lemma_mul_le_cancel(a: int, b: int, c: int)
    by (nonlinear_arith)
    requires
        a * c <= b * c,
        c > 0,
    ensures
        a <= b,
{
}

/// Multiplication by a zero factor gives zero.
pub proof fn lemma_mul_zero(a: int, b: int)
    by (nonlinear_arith)
    requires
        a == 0,
    ensures
        a * b == 0,
{
}

/// Multiplication distributes over subtraction.
pub proof fn lemma_sub_mul(a: int, b: int, c: int)
    by (nonlinear_arith)
    ensures
        (a - b) * c == a * c - b * c,
{
}

/// Transitivity of the rational order `an/ad <= bn/bd <= cn/cd`.
pub proof fn lemma_rat_le_trans(an: int, ad: int, bn: int, bd: int, cn: int, cd: int)
    by (nonlinear_arith)
    requires
        ad > 0,
        bd > 0,
        cd > 0,
        an * bd <= bn * ad,
        bn * cd <= cn * bd,
    ensures
        an * cd <= cn * ad,
{
}

/// Multiplication distributes over a three-term sum.
pub proof fn lemma_mul_distrib3(k: int, x: int, y: int, z: int)
    by (nonlinear_arith)
    ensures
        k * (x + y + z) == k * x + k * y + k * z,
{
}

/// Products of pairs can be regrouped.
pub proof fn lemma_mul_pair(a: int, b: int, c: int, d: int)
    by (nonlinear_arith)
    ensures
        (a * b) * (c * d) == (a * c) * (b * d),
{
}

/// The square of a difference, expanded.
pub proof fn lemma_sq_diff(p: int, q: int, w: int)
    by (nonlinear_arith)
    requires
        w == p - q,
    ensures
        w * w == p * p - 2 * (p * q) + q * q,
{
}

/// The square of a product is the product of the squares.
pub proof fn lemma_mul_sq(x: int, y: int)
    by (nonlinear_arith)
    ensures
        (x * y) * (x * y) == (x * x) * (y * y),
{
}

/// A number whose square is at most `m * m` lies within `[-m, m]`.
pub proof fn lemma_abs_from_sq(x: int, m: int)
    by (nonlinear_arith)
    requires
        x * x <= m * m,
        m >= 0,
    ensures
        -m <= x <= m,
{
}

/// A square is never negative, and the square of a nonzero integer is at
/// least one.
pub proof fn lemma_square_pos(a: int)
    by (nonlinear_arith)
    ensures
        a * a >= 0,
        a != 0 ==> a * a >= 1,
{
}

} // verus!
