//! Three-component vectors over fixed-point numbers.

use crate::fixed::{
    clamp, div_toward_zero, floor_sqrt, floor_sqrt_u128, is_floor_sqrt, lemma_floor_sqrt_exists,
    lemma_floor_sqrt_unique, lemma_product_bound, lemma_quotient_square,
    lemma_trunc_div_fraction, lemma_trunc_div_neg, lemma_trunc_div_remainder, magnitude, saturate,
    trunc_div, Fixed, LIMIT, SCALE,
};
use vstd::prelude::*;

verus! {

/// A component below this many raw units counts as zero in `is_near_zero`.
pub const NEAR_ZERO: i64 = 10;

/// A vector, a point or a colour: three fixed-point components.
#[derive(Clone, Copy, Debug, PartialEq, Eq, Structural)]
pub struct Vec3 {
    /// The first component; the red channel of a colour.
    pub x: Fixed,
    /// The second component; the green channel of a colour.
    pub y: Fixed,
    /// The third component; the blue channel of a colour.
    pub z: Fixed,
}

/// A place in space.
pub type Point3 = Vec3;

/// A colour: red, green and blue in `x`, `y` and `z`.
pub type Color = Vec3;

/// Every channel of the colour lies between zero and one.
pub open spec fn in_unit_range(c: Color) -> bool {
    &&& 0 <= c.x@ <= SCALE as int
    &&& 0 <= c.y@ <= SCALE as int
    &&& 0 <= c.z@ <= SCALE as int
}

/// A component `c` of a vector whose squared raw length is `sum`, divided by
/// the raw length `len`, lies between minus one and one.
proof fn lemma_unit_component_bounded(c: int, sum: int, len: int)
    requires
        c * c <= sum,
        is_floor_sqrt(sum, len),
        len > 0,
    ensures
        -(SCALE as int) <= trunc_div(c * SCALE, len) <= SCALE as int,
{
    if c > len {
        assert(c * c >= (len + 1) * (len + 1)) by (nonlinear_arith)
            requires
                c >= len + 1,
                len >= 0,
        ;
    }
    if c < -len {
        assert(c * c >= (len + 1) * (len + 1)) by (nonlinear_arith)
            requires
                -c >= len + 1,
                len >= 0,
        ;
    }
    lemma_trunc_div_fraction(c, len);
}

/// The magnitude up to which a vector is stretched before it is normalized,
/// in raw units: the squares of three such components still fit together.
pub const STRETCH_RANGE: i64 = 0x4000_0000_0000_0000;

/// The largest magnitude among the components, in raw units.
pub open spec fn max_magnitude(v: Vec3) -> int {
    let a = magnitude(v.x@);
    let b = magnitude(v.y@);
    let c = magnitude(v.z@);
    if a >= b && a >= c {
        a
    } else if b >= c {
        b
    } else {
        c
    }
}

/// The largest whole factor by which a vector can be stretched with every
/// component staying within `STRETCH_RANGE`; zero for the zero vector.
pub open spec fn stretch(v: Vec3) -> int {
    if max_magnitude(v) == 0 {
        0
    } else {
        (STRETCH_RANGE as int) / max_magnitude(v)
    }
}

/// The exact squared length of the stretched vector.
pub open spec fn stretched_dot(v: Vec3) -> int {
    let k = stretch(v);
    (k * v.x@) * (k * v.x@) + (k * v.y@) * (k * v.y@) + (k * v.z@) * (k * v.z@)
}

/// The length of the stretched vector, rounded down.
pub open spec fn stretched_length(v: Vec3) -> int {
    floor_sqrt(stretched_dot(v))
}

/// A component no larger in magnitude than a positive length, divided by the
/// length, lies between minus one and one.
proof fn lemma_unit_component_bounded_by_length(c: int, len: int)
    requires
        len > 0,
        magnitude(c) <= len,
    ensures
        -(SCALE as int) <= trunc_div(c * SCALE, len) <= SCALE as int,
{
    lemma_trunc_div_fraction(c, len);
}

/// A component stretched by `k` is in magnitude `k` times its magnitude, and
/// no larger than `k` times the largest magnitude `m`.
proof fn lemma_stretched_component(k: int, c: int, m: int)
    by (nonlinear_arith)
    requires
        k >= 0,
        -m <= c <= m,
    ensures
        -(k * m) <= k * c <= k * m,
        c == m ==> k * c == k * m,
        c == -m ==> k * c == -(k * m),
{
}

/// The floor root of a number that is at least the square of `top` is at
/// least `top`.
proof fn lemma_root_at_least(top: int, sum: int, len: int)
    by (nonlinear_arith)
    requires
        top >= 0,
        sum >= top * top,
        is_floor_sqrt(sum, len),
    ensures
        len >= top,
{
}

/// The exact cross product is at right angles to both of its factors.
#[verifier::rlimit(60)]
proof fn lemma_triple_product(a: (int, int, int), b: (int, int, int))
    ensures
        (a.1 * b.2 - a.2 * b.1) * a.0 + (a.2 * b.0 - a.0 * b.2) * a.1 + (a.0 * b.1 - a.1 * b.0)
            * a.2 == 0,
        (a.1 * b.2 - a.2 * b.1) * b.0 + (a.2 * b.0 - a.0 * b.2) * b.1 + (a.0 * b.1 - a.1 * b.0)
            * b.2 == 0,
{
    let t1 = (a.1 * b.2) * a.0;
    let t2 = (a.2 * b.1) * a.0;
    let t3 = (a.2 * b.0) * a.1;
    let t4 = (a.0 * b.2) * a.1;
    let t5 = (a.0 * b.1) * a.2;
    let t6 = (a.1 * b.0) * a.2;
    assert((a.1 * b.2 - a.2 * b.1) * a.0 == t1 - t2) by (nonlinear_arith)
        requires
            t1 == (a.1 * b.2) * a.0,
            t2 == (a.2 * b.1) * a.0,
    ;
    assert((a.2 * b.0 - a.0 * b.2) * a.1 == t3 - t4) by (nonlinear_arith)
        requires
            t3 == (a.2 * b.0) * a.1,
            t4 == (a.0 * b.2) * a.1,
    ;
    assert((a.0 * b.1 - a.1 * b.0) * a.2 == t5 - t6) by (nonlinear_arith)
        requires
            t5 == (a.0 * b.1) * a.2,
            t6 == (a.1 * b.0) * a.2,
    ;
    assert(t1 == t4) by (nonlinear_arith)
        requires
            t1 == (a.1 * b.2) * a.0,
            t4 == (a.0 * b.2) * a.1,
    ;
    assert(t2 == t5) by (nonlinear_arith)
        requires
            t2 == (a.2 * b.1) * a.0,
            t5 == (a.0 * b.1) * a.2,
    ;
    assert(t3 == t6) by (nonlinear_arith)
        requires
            t3 == (a.2 * b.0) * a.1,
            t6 == (a.1 * b.0) * a.2,
    ;
    let s1 = (a.1 * b.2) * b.0;
    let s2 = (a.2 * b.1) * b.0;
    let s3 = (a.2 * b.0) * b.1;
    let s4 = (a.0 * b.2) * b.1;
    let s5 = (a.0 * b.1) * b.2;
    let s6 = (a.1 * b.0) * b.2;
    assert((a.1 * b.2 - a.2 * b.1) * b.0 == s1 - s2) by (nonlinear_arith)
        requires
            s1 == (a.1 * b.2) * b.0,
            s2 == (a.2 * b.1) * b.0,
    ;
    assert((a.2 * b.0 - a.0 * b.2) * b.1 == s3 - s4) by (nonlinear_arith)
        requires
            s3 == (a.2 * b.0) * b.1,
            s4 == (a.0 * b.2) * b.1,
    ;
    assert((a.0 * b.1 - a.1 * b.0) * b.2 == s5 - s6) by (nonlinear_arith)
        requires
            s5 == (a.0 * b.1) * b.2,
            s6 == (a.1 * b.0) * b.2,
    ;
    assert(s1 == s6) by (nonlinear_arith)
        requires
            s1 == (a.1 * b.2) * b.0,
            s6 == (a.1 * b.0) * b.2,
    ;
    assert(s2 == s3) by (nonlinear_arith)
        requires
            s2 == (a.2 * b.1) * b.0,
            s3 == (a.2 * b.0) * b.1,
    ;
    assert(s4 == s5) by (nonlinear_arith)
        requires
            s4 == (a.0 * b.2) * b.1,
            s5 == (a.0 * b.1) * b.2,
    ;
}

/// A component of an exact cross product of vectors within one, divided by
/// the scale: within two, and the rounding takes less than one raw unit.
proof fn lemma_cross_component(x: int)
    requires
        -(2 * (SCALE * SCALE)) <= x <= 2 * (SCALE * SCALE),
    ensures
        -2 * SCALE <= trunc_div(x, SCALE as int) <= 2 * SCALE,
        -SCALE < x - trunc_div(x, SCALE as int) * SCALE < SCALE,
{
    let s = SCALE as int;
    let q = trunc_div(x, s);
    lemma_trunc_div_remainder(x, s);
    assert(-2 * s <= q <= 2 * s) by (nonlinear_arith)
        requires
            -s < x - q * s < s,
            -(2 * (s * s)) <= x <= 2 * (s * s),
            s > 0,
    ;
}

/// A rounded vector `c`, with `c SCALE = x - k`, against a vector `a` to
/// which the exact vector `x` is at right angles: the dot product is at most
/// three raw units.
#[verifier::rlimit(60)]
proof fn lemma_perpendicular_sum(
    c: (int, int, int),
    x: (int, int, int),
    k: (int, int, int),
    a: (int, int, int),
)
    requires
        x.0 * a.0 + x.1 * a.1 + x.2 * a.2 == 0,
        k.0 == x.0 - c.0 * SCALE && k.1 == x.1 - c.1 * SCALE && k.2 == x.2 - c.2 * SCALE,
        -SCALE < k.0 < SCALE && -SCALE < k.1 < SCALE && -SCALE < k.2 < SCALE,
        -SCALE <= a.0 <= SCALE && -SCALE <= a.1 <= SCALE && -SCALE <= a.2 <= SCALE,
    ensures
        -3 * SCALE <= c.0 * a.0 + c.1 * a.1 + c.2 * a.2 <= 3 * SCALE,
{
    let s = SCALE as int;
    let ca = c.0 * a.0 + c.1 * a.1 + c.2 * a.2;
    let ka = k.0 * a.0 + k.1 * a.1 + k.2 * a.2;
    assert((c.0 * a.0) * s == x.0 * a.0 - k.0 * a.0) by (nonlinear_arith)
        requires
            k.0 == x.0 - c.0 * s,
    ;
    assert((c.1 * a.1) * s == x.1 * a.1 - k.1 * a.1) by (nonlinear_arith)
        requires
            k.1 == x.1 - c.1 * s,
    ;
    assert((c.2 * a.2) * s == x.2 * a.2 - k.2 * a.2) by (nonlinear_arith)
        requires
            k.2 == x.2 - c.2 * s,
    ;
    assert(ca * s == (c.0 * a.0) * s + (c.1 * a.1) * s + (c.2 * a.2) * s) by (nonlinear_arith)
        requires
            ca == c.0 * a.0 + c.1 * a.1 + c.2 * a.2,
    ;
    assert(ca * s == -ka);
    lemma_product_bound(k.0, a.0, s, s);
    lemma_product_bound(k.1, a.1, s, s);
    lemma_product_bound(k.2, a.2, s, s);
    assert(-3 * s <= ca <= 3 * s) by (nonlinear_arith)
        requires
            -(3 * (s * s)) <= ca * s <= 3 * (s * s),
            s > 0,
    ;
}

/// The square of a product is the product of the squares.
proof fn lemma_square_of_product(a: int, b: int)
    by (nonlinear_arith)
    ensures
        (a * a) * (b * b) == (a * b) * (a * b),
{
}

/// Two products of two pairs are the same however the pairs are made.
proof fn lemma_swap_pairs(a: int, b: int, c: int, d: int)
    by (nonlinear_arith)
    ensures
        (a * b) * (c * d) == (a * d) * (c * b),
{
}

/// Lagrange's identity: the squared length of an exact cross product is the
/// product of the squared lengths less the square of the dot product.
#[verifier::rlimit(60)]
proof fn lemma_lagrange(a: (int, int, int), b: (int, int, int))
    ensures
        ({
            let x0 = a.1 * b.2 - a.2 * b.1;
            let x1 = a.2 * b.0 - a.0 * b.2;
            let x2 = a.0 * b.1 - a.1 * b.0;
            let aa = a.0 * a.0 + a.1 * a.1 + a.2 * a.2;
            let bb = b.0 * b.0 + b.1 * b.1 + b.2 * b.2;
            let ab = a.0 * b.0 + a.1 * b.1 + a.2 * b.2;
            x0 * x0 + x1 * x1 + x2 * x2 == aa * bb - ab * ab
        }),
{
    let p00 = a.0 * b.0;
    let p01 = a.0 * b.1;
    let p02 = a.0 * b.2;
    let p10 = a.1 * b.0;
    let p11 = a.1 * b.1;
    let p12 = a.1 * b.2;
    let p20 = a.2 * b.0;
    let p21 = a.2 * b.1;
    let p22 = a.2 * b.2;
    let (u0, u1, u2) = (a.0 * a.0, a.1 * a.1, a.2 * a.2);
    let (v0, v1, v2) = (b.0 * b.0, b.1 * b.1, b.2 * b.2);
    lemma_square_of_product(a.0, b.0);
    lemma_square_of_product(a.0, b.1);
    lemma_square_of_product(a.0, b.2);
    lemma_square_of_product(a.1, b.0);
    lemma_square_of_product(a.1, b.1);
    lemma_square_of_product(a.1, b.2);
    lemma_square_of_product(a.2, b.0);
    lemma_square_of_product(a.2, b.1);
    lemma_square_of_product(a.2, b.2);
    lemma_swap_pairs(a.0, b.0, a.1, b.1);
    lemma_swap_pairs(a.1, b.1, a.2, b.2);
    lemma_swap_pairs(a.0, b.0, a.2, b.2);
    let aa = u0 + u1 + u2;
    let bb = v0 + v1 + v2;
    let ab = p00 + p11 + p22;
    assert(aa * bb == u0 * v0 + u0 * v1 + u0 * v2 + u1 * v0 + u1 * v1 + u1 * v2 + u2 * v0 + u2
        * v1 + u2 * v2) by (nonlinear_arith)
        requires
            aa == u0 + u1 + u2,
            bb == v0 + v1 + v2,
    ;
    assert(ab * ab == p00 * p00 + p11 * p11 + p22 * p22 + 2 * (p00 * p11) + 2 * (p11 * p22) + 2
        * (p00 * p22)) by (nonlinear_arith)
        requires
            ab == p00 + p11 + p22,
    ;
    let x0 = p12 - p21;
    let x1 = p20 - p02;
    let x2 = p01 - p10;
    assert(x0 * x0 == p12 * p12 + p21 * p21 - 2 * (p12 * p21)) by (nonlinear_arith)
        requires
            x0 == p12 - p21,
    ;
    assert(x1 * x1 == p20 * p20 + p02 * p02 - 2 * (p20 * p02)) by (nonlinear_arith)
        requires
            x1 == p20 - p02,
    ;
    assert(x2 * x2 == p01 * p01 + p10 * p10 - 2 * (p01 * p10)) by (nonlinear_arith)
        requires
            x2 == p01 - p10,
    ;
    assert(p00 * p11 == p01 * p10);
    assert(p11 * p22 == p12 * p21);
    assert(p00 * p22 == p02 * p20);
    assert(p20 * p02 == p02 * p20) by (nonlinear_arith);
}

/// The squared length of a rounded vector `c`, with `c SCALE = x - k`,
/// against that of the exact vector `x` within twice the squared scale.
#[verifier::rlimit(60)]
proof fn lemma_rounded_length(c: (int, int, int), x: (int, int, int), k: (int, int, int))
    requires
        k.0 == x.0 - c.0 * SCALE && k.1 == x.1 - c.1 * SCALE && k.2 == x.2 - c.2 * SCALE,
        -SCALE < k.0 < SCALE && -SCALE < k.1 < SCALE && -SCALE < k.2 < SCALE,
        -(2 * (SCALE * SCALE)) <= x.0 <= 2 * (SCALE * SCALE),
        -(2 * (SCALE * SCALE)) <= x.1 <= 2 * (SCALE * SCALE),
        -(2 * (SCALE * SCALE)) <= x.2 <= 2 * (SCALE * SCALE),
    ensures
        -13 * (SCALE * SCALE * SCALE) <= (c.0 * c.0 + c.1 * c.1 + c.2 * c.2) * (SCALE * SCALE)
            - (x.0 * x.0 + x.1 * x.1 + x.2 * x.2) <= 13 * (SCALE * SCALE * SCALE),
{
    let s = SCALE as int;
    let ss = s * s;
    let sss = ss * s;
    let cc = c.0 * c.0 + c.1 * c.1 + c.2 * c.2;
    let xx = x.0 * x.0 + x.1 * x.1 + x.2 * x.2;
    let kk = k.0 * k.0 + k.1 * k.1 + k.2 * k.2;
    let xk = x.0 * k.0 + x.1 * k.1 + x.2 * k.2;
    assert((c.0 * c.0) * ss == x.0 * x.0 - 2 * (x.0 * k.0) + k.0 * k.0) by (nonlinear_arith)
        requires
            c.0 * s == x.0 - k.0,
            ss == s * s,
    ;
    assert((c.1 * c.1) * ss == x.1 * x.1 - 2 * (x.1 * k.1) + k.1 * k.1) by (nonlinear_arith)
        requires
            c.1 * s == x.1 - k.1,
            ss == s * s,
    ;
    assert((c.2 * c.2) * ss == x.2 * x.2 - 2 * (x.2 * k.2) + k.2 * k.2) by (nonlinear_arith)
        requires
            c.2 * s == x.2 - k.2,
            ss == s * s,
    ;
    assert(cc * ss == (c.0 * c.0) * ss + (c.1 * c.1) * ss + (c.2 * c.2) * ss) by (nonlinear_arith)
        requires
            cc == c.0 * c.0 + c.1 * c.1 + c.2 * c.2,
    ;
    assert(cc * ss - xx == kk - 2 * xk);
    lemma_product_bound(x.0, k.0, 2 * ss, s);
    lemma_product_bound(x.1, k.1, 2 * ss, s);
    lemma_product_bound(x.2, k.2, 2 * ss, s);
    lemma_product_bound(k.0, k.0, s, s);
    lemma_product_bound(k.1, k.1, s, s);
    lemma_product_bound(k.2, k.2, s, s);
    assert((2 * ss) * s == 2 * sss && ss <= sss && s * s * s == sss) by (nonlinear_arith)
        requires
            ss == s * s,
            sss == ss * s,
            s == 1_000_000_000,
    ;
}

/// One term of the dot product of a unit vector: for `u len = k v s - e`,
/// `(u o) len = (k s) (v o) - e o`.
#[verifier::rlimit(60)]
proof fn lemma_dot_term(u: int, o: int, len: int, k: int, v: int, s: int, e: int)
    requires
        e == k * v * s - u * len,
    ensures
        (u * o) * len == (k * s) * (v * o) - e * o,
{
    let ul = u * len;
    let kvs = k * v * s;
    assert((u * o) * len == ul * o) by (nonlinear_arith)
        requires
            ul == u * len,
    ;
    assert(ul * o == kvs * o - e * o) by (nonlinear_arith)
        requires
            ul == kvs - e,
    ;
    let kv = k * v;
    assert(kvs * o == (kv * s) * o) by (nonlinear_arith)
        requires
            kvs == kv * s,
    ;
    assert((kv * s) * o == (k * s) * (v * o)) by (nonlinear_arith)
        requires
            kv == k * v,
    ;
}

/// The sum of the three products of matching components, in squared raw units.
pub open spec fn raw_dot(a: Vec3, b: Vec3) -> int {
    a.x@ * b.x@ + a.y@ * b.y@ + a.z@ * b.z@
}

impl Vec3 {
    /// All three components keep to the range of `Fixed`.
    pub open spec fn wf(self) -> bool {
        self.x.wf() && self.y.wf() && self.z.wf()
    }

    /// No component exceeds `bound` raw units in magnitude.
    pub open spec fn is_within(self, bound: int) -> bool {
        &&& -bound <= self.x@ <= bound
        &&& -bound <= self.y@ <= bound
        &&& -bound <= self.z@ <= bound
    }

    /// The vector with `v` in every component.
    pub open spec fn splat_spec(v: Fixed) -> Vec3 {
        Vec3 { x: v, y: v, z: v }
    }

    /// The zero vector.
    pub open spec fn zero_spec() -> Vec3 {
        Vec3::splat_spec(Fixed::zero_spec())
    }

    /// The sum, component by component.
    pub open spec fn add_spec(self, rhs: Vec3) -> Vec3 {
        Vec3 {
            x: self.x.add_spec(rhs.x),
            y: self.y.add_spec(rhs.y),
            z: self.z.add_spec(rhs.z),
        }
    }

    /// The difference, component by component.
    pub open spec fn sub_spec(self, rhs: Vec3) -> Vec3 {
        Vec3 {
            x: self.x.sub_spec(rhs.x),
            y: self.y.sub_spec(rhs.y),
            z: self.z.sub_spec(rhs.z),
        }
    }

    /// The opposite vector.
    pub open spec fn neg_spec(self) -> Vec3 {
        Vec3 { x: self.x.neg_spec(), y: self.y.neg_spec(), z: self.z.neg_spec() }
    }

    /// The component-wise product.
    pub open spec fn mul_spec(self, rhs: Vec3) -> Vec3 {
        Vec3 {
            x: self.x.mul_spec(rhs.x),
            y: self.y.mul_spec(rhs.y),
            z: self.z.mul_spec(rhs.z),
        }
    }

    /// The vector with every component multiplied by `t`.
    pub open spec fn scale_spec(self, t: Fixed) -> Vec3 {
        Vec3 { x: self.x.mul_spec(t), y: self.y.mul_spec(t), z: self.z.mul_spec(t) }
    }

    /// The vector with every component divided by `t`.
    pub open spec fn div_spec(self, t: Fixed) -> Vec3 {
        Vec3 { x: self.x.div_spec(t), y: self.y.div_spec(t), z: self.z.div_spec(t) }
    }

    /// The dot product, rounded once, after the three products are summed.
    pub open spec fn dot_spec(self, rhs: Vec3) -> Fixed {
        Fixed::of(clamp(trunc_div(raw_dot(self, rhs), SCALE as int)))
    }

    /// The cross product; each component is rounded once.
    pub open spec fn cross_spec(self, rhs: Vec3) -> Vec3 {
        Vec3 {
            x: Fixed::of(
                clamp(trunc_div(self.y@ * rhs.z@ - self.z@ * rhs.y@, SCALE as int)),
            ),
            y: Fixed::of(
                clamp(trunc_div(self.z@ * rhs.x@ - self.x@ * rhs.z@, SCALE as int)),
            ),
            z: Fixed::of(
                clamp(trunc_div(self.x@ * rhs.y@ - self.y@ * rhs.x@, SCALE as int)),
            ),
        }
    }

    /// The dot product of the vector with itself.
    pub open spec fn length_squared_spec(self) -> Fixed {
        self.dot_spec(self)
    }

    /// The Euclidean length in whole raw units, rounded down.
    pub open spec fn raw_length(self) -> int {
        floor_sqrt(raw_dot(self, self))
    }

    /// The Euclidean length, clamped to the range.
    pub open spec fn length_spec(self) -> Fixed {
        Fixed::of(clamp(self.raw_length()))
    }

    /// The vector divided by its length; the zero vector stays as it is.
    /// So that a short vector loses no digits, the vector is first stretched
    /// by the whole factor `stretch`; each component of the stretched vector
    /// is then divided by the stretched length.
    pub open spec fn normalize_spec(self) -> Vec3 {
        if max_magnitude(self) == 0 {
            self
        } else {
            let k = stretch(self);
            let len = stretched_length(self);
            Vec3 {
                x: Fixed::of(clamp(trunc_div(k * self.x@ * SCALE, len))),
                y: Fixed::of(clamp(trunc_div(k * self.y@ * SCALE, len))),
                z: Fixed::of(clamp(trunc_div(k * self.z@ * SCALE, len))),
            }
        }
    }

    /// Every component is closer to zero than `NEAR_ZERO` raw units.
    pub open spec fn is_near_zero_spec(self) -> bool {
        &&& -(NEAR_ZERO as int) < self.x@ < NEAR_ZERO as int
        &&& -(NEAR_ZERO as int) < self.y@ < NEAR_ZERO as int
        &&& -(NEAR_ZERO as int) < self.z@ < NEAR_ZERO as int
    }

    /// The zero vector has length zero.
    pub proof fn lemma_zero()
        ensures
            Vec3::zero_spec().wf(),
            Vec3::zero_spec().x@ == 0,
            Vec3::zero_spec().y@ == 0,
            Vec3::zero_spec().z@ == 0,
            Vec3::zero_spec().length_squared_spec()@ == 0,
    {
        broadcast use Fixed::lemma_of;

        let z = Vec3::zero_spec();
        assert(z.x@ == 0 && z.y@ == 0 && z.z@ == 0);
        assert(raw_dot(z, z) == 0);
    }

    /// The dot product with the opposite of a vector is the opposite of the
    /// dot product with the vector.
    pub proof fn lemma_dot_neg(a: Vec3, b: Vec3)
        requires
            b.wf(),
        ensures
            a.dot_spec(b.neg_spec())@ == -a.dot_spec(b)@,
    {
        broadcast use Fixed::lemma_of;

        let nb = b.neg_spec();
        assert(nb.x@ == -b.x@ && nb.y@ == -b.y@ && nb.z@ == -b.z@);
        assert(raw_dot(a, nb) == -raw_dot(a, b)) by (nonlinear_arith)
            requires
                nb.x@ == -b.x@ && nb.y@ == -b.y@ && nb.z@ == -b.z@,
        ;
        lemma_trunc_div_neg(raw_dot(a, b), SCALE as int);
    }

    /// The components of a normalized vector lie between minus one and one.
    #[verifier::rlimit(60)]
    pub proof fn lemma_normalize_bounded(self)
        ensures
            -(SCALE as int) <= self.normalize_spec().x@ <= SCALE as int,
            -(SCALE as int) <= self.normalize_spec().y@ <= SCALE as int,
            -(SCALE as int) <= self.normalize_spec().z@ <= SCALE as int,
    {
        broadcast use Fixed::lemma_of;

        if max_magnitude(self) != 0 {
            let k = stretch(self);
            let x = k * self.x@;
            let y = k * self.y@;
            let z = k * self.z@;
            let sum = stretched_dot(self);
            assert(x * x >= 0 && y * y >= 0 && z * z >= 0) by (nonlinear_arith);
            lemma_floor_sqrt_exists(sum);
            let len = stretched_length(self);
            if len == 0 {
                assert((len + 1) * (len + 1) == 1) by (nonlinear_arith)
                    requires
                        len == 0,
                ;
                assert(x == 0) by (nonlinear_arith)
                    requires
                        x * x <= 0,
                ;
                assert(y == 0) by (nonlinear_arith)
                    requires
                        y * y <= 0,
                ;
                assert(z == 0) by (nonlinear_arith)
                    requires
                        z * z <= 0,
                ;
                assert(x * SCALE == 0 && y * SCALE == 0 && z * SCALE == 0);
            } else {
                lemma_unit_component_bounded(x, sum, len);
                lemma_unit_component_bounded(y, sum, len);
                lemma_unit_component_bounded(z, sum, len);
            }
        }
    }

    /// The stretched vector: its factor is at least one, its largest
    /// component exceeds half of `STRETCH_RANGE`, none exceeds the range, and
    /// its length is at least its largest component.
    #[verifier::rlimit(60)]
    pub proof fn lemma_stretched(self)
        requires
            self.wf(),
            max_magnitude(self) > 0,
        ensures
            stretch(self) >= 1,
            STRETCH_RANGE < 2 * (stretch(self) * max_magnitude(self)) <= 2 * STRETCH_RANGE,
            is_floor_sqrt(stretched_dot(self), stretched_length(self)),
            stretched_length(self) >= stretch(self) * max_magnitude(self),
            magnitude(stretch(self) * self.x@) <= stretched_length(self),
            magnitude(stretch(self) * self.y@) <= stretched_length(self),
            magnitude(stretch(self) * self.z@) <= stretched_length(self),
    {
        let m = max_magnitude(self);
        let k = stretch(self);
        let range = STRETCH_RANGE as int;
        vstd::arithmetic::div_mod::lemma_fundamental_div_mod(range, m);
        vstd::arithmetic::div_mod::lemma_mod_bound(range, m);
        vstd::arithmetic::div_mod::lemma_div_pos_is_pos(range, m);
        let top = k * m;
        assert(top == m * k) by (nonlinear_arith)
            requires
                top == k * m,
        ;
        assert(k >= 1) by {
            if k < 1 {
                assert(k == 0);
                assert(top == 0) by (nonlinear_arith)
                    requires
                        top == k * m,
                        k == 0,
                ;
            }
        }
        assert(top >= m) by (nonlinear_arith)
            requires
                top == k * m,
                k >= 1,
                m > 0,
        ;
        let x = k * self.x@;
        let y = k * self.y@;
        let z = k * self.z@;
        lemma_stretched_component(k, self.x@, m);
        lemma_stretched_component(k, self.y@, m);
        lemma_stretched_component(k, self.z@, m);
        assert(x * x >= 0 && y * y >= 0 && z * z >= 0) by (nonlinear_arith);
        let sum = stretched_dot(self);
        assert(sum >= top * top) by (nonlinear_arith)
            requires
                sum == x * x + y * y + z * z,
                x * x >= 0 && y * y >= 0 && z * z >= 0,
                x == top || x == -top || y == top || y == -top || z == top || z == -top,
        ;
        lemma_floor_sqrt_exists(sum);
        let len = stretched_length(self);
        lemma_root_at_least(top, sum, len);
    }

    /// The unit vector of a vector that is not zero has length one: its
    /// exact squared length falls short of one by at most six raw units and
    /// exceeds it by at most two squared raw units.
    #[verifier::rlimit(60)]
    pub proof fn lemma_normalize_unit(self)
        requires
            self.wf(),
            max_magnitude(self) > 0,
        ensures
            SCALE * SCALE - 6 * SCALE <= raw_dot(self.normalize_spec(), self.normalize_spec())
                <= SCALE * SCALE + 2,
    {
        broadcast use Fixed::lemma_of;

        self.lemma_stretched();
        self.lemma_normalize_bounded();
        let k = stretch(self);
        let len = stretched_length(self);
        let sum = stretched_dot(self);
        let wx = k * self.x@;
        let wy = k * self.y@;
        let wz = k * self.z@;
        let u = self.normalize_spec();
        let x = u.x@;
        let y = u.y@;
        let z = u.z@;
        lemma_unit_component_bounded_by_length(wx, len);
        lemma_unit_component_bounded_by_length(wy, len);
        lemma_unit_component_bounded_by_length(wz, len);
        assert(x == trunc_div(wx * SCALE, len));
        assert(y == trunc_div(wy * SCALE, len));
        assert(z == trunc_div(wz * SCALE, len));
        lemma_quotient_square(wx, len);
        lemma_quotient_square(wy, len);
        lemma_quotient_square(wz, len);
        let q = raw_dot(u, u);
        let ll = len * len;
        let ss = SCALE * SCALE;
        let t = magnitude(wx) + magnitude(wy) + magnitude(wz);
        assert(q * ll == x * x * ll + y * y * ll + z * z * ll) by (nonlinear_arith)
            requires
                q == x * x + y * y + z * z,
        ;
        assert(sum * ss == wx * wx * ss + wy * wy * ss + wz * wz * ss) by (nonlinear_arith)
            requires
                sum == wx * wx + wy * wy + wz * wz,
        ;
        assert(2 * t * SCALE * len == 2 * magnitude(wx) * SCALE * len + 2 * magnitude(wy) * SCALE
            * len + 2 * magnitude(wz) * SCALE * len) by (nonlinear_arith)
            requires
                t == magnitude(wx) + magnitude(wy) + magnitude(wz),
        ;
        assert(q * ll <= sum * ss);
        assert(q * ll >= sum * ss - 2 * t * SCALE * len);
        // the stretched length brackets the stretched squared length
        assert(ll <= sum <= ll + 2 * len) by (nonlinear_arith)
            requires
                len * len <= sum < (len + 1) * (len + 1),
                ll == len * len,
        ;
        assert(ll > 0 && ss <= len) by (nonlinear_arith)
            requires
                ll == len * len,
                ss == SCALE * SCALE,
                2 * len > STRETCH_RANGE,
        ;
        assert(2 * t * SCALE * len <= 6 * SCALE * ll) by (nonlinear_arith)
            requires
                0 <= t <= 3 * len,
                ll == len * len,
                len > 0,
        ;
        assert(sum * ss >= ll * ss) by (nonlinear_arith)
            requires
                sum >= ll,
                ss >= 0,
        ;
        assert(sum * ss <= ll * ss + 2 * ll) by (nonlinear_arith)
            requires
                sum <= ll + 2 * len,
                0 <= ss <= len,
                ll == len * len,
                len > 0,
        ;
        assert(q >= ss - 6 * SCALE) by (nonlinear_arith)
            requires
                q * ll >= ll * ss - 6 * SCALE * ll,
                ll > 0,
        ;
        assert(q <= ss + 2) by (nonlinear_arith)
            requires
                q * ll <= ll * ss + 2 * ll,
                ll > 0,
        ;
    }

    /// The cross product is at right angles to both of its factors: for
    /// factors with components between minus one and one, the exact dot
    /// product of the cross product with either is at most three raw units
    /// in magnitude.
    pub proof fn lemma_cross_perpendicular(self, rhs: Vec3)
        requires
            self.is_within(SCALE as int),
            rhs.is_within(SCALE as int),
        ensures
            -3 * SCALE <= raw_dot(self.cross_spec(rhs), self) <= 3 * SCALE,
            -3 * SCALE <= raw_dot(self.cross_spec(rhs), rhs) <= 3 * SCALE,
            self.cross_spec(rhs).is_within(2 * SCALE),
    {
        broadcast use Fixed::lemma_of;

        let s = SCALE as int;
        let a = (self.x@, self.y@, self.z@);
        let b = (rhs.x@, rhs.y@, rhs.z@);
        let x0 = a.1 * b.2 - a.2 * b.1;
        let x1 = a.2 * b.0 - a.0 * b.2;
        let x2 = a.0 * b.1 - a.1 * b.0;
        lemma_product_bound(a.1, b.2, s, s);
        lemma_product_bound(a.2, b.1, s, s);
        lemma_product_bound(a.2, b.0, s, s);
        lemma_product_bound(a.0, b.2, s, s);
        lemma_product_bound(a.0, b.1, s, s);
        lemma_product_bound(a.1, b.0, s, s);
        lemma_cross_component(x0);
        lemma_cross_component(x1);
        lemma_cross_component(x2);
        let c = self.cross_spec(rhs);
        let c0 = trunc_div(x0, s);
        let c1 = trunc_div(x1, s);
        let c2 = trunc_div(x2, s);
        assert(c.x@ == c0 && c.y@ == c1 && c.z@ == c2);
        lemma_triple_product(a, b);
        let k0 = x0 - c0 * s;
        let k1 = x1 - c1 * s;
        let k2 = x2 - c2 * s;
        lemma_perpendicular_sum((c0, c1, c2), (x0, x1, x2), (k0, k1, k2), a);
        lemma_perpendicular_sum((c0, c1, c2), (x0, x1, x2), (k0, k1, k2), b);
    }

    /// The length of a cross product: for factors with components between
    /// minus one and one, its exact squared length times the squared scale
    /// differs from the product of the squared lengths of the factors less
    /// the square of their dot product by at most thirteen cubed scales.
    pub proof fn lemma_cross_length(self, rhs: Vec3)
        requires
            self.is_within(SCALE as int),
            rhs.is_within(SCALE as int),
        ensures
            -13 * (SCALE * SCALE * SCALE) <= raw_dot(self.cross_spec(rhs), self.cross_spec(rhs))
                * (SCALE * SCALE) - (raw_dot(self, self) * raw_dot(rhs, rhs) - raw_dot(self, rhs)
                * raw_dot(self, rhs)) <= 13 * (SCALE * SCALE * SCALE),
    {
        broadcast use Fixed::lemma_of;

        let s = SCALE as int;
        let a = (self.x@, self.y@, self.z@);
        let b = (rhs.x@, rhs.y@, rhs.z@);
        let x0 = a.1 * b.2 - a.2 * b.1;
        let x1 = a.2 * b.0 - a.0 * b.2;
        let x2 = a.0 * b.1 - a.1 * b.0;
        lemma_product_bound(a.1, b.2, s, s);
        lemma_product_bound(a.2, b.1, s, s);
        lemma_product_bound(a.2, b.0, s, s);
        lemma_product_bound(a.0, b.2, s, s);
        lemma_product_bound(a.0, b.1, s, s);
        lemma_product_bound(a.1, b.0, s, s);
        lemma_cross_component(x0);
        lemma_cross_component(x1);
        lemma_cross_component(x2);
        let c = self.cross_spec(rhs);
        let c0 = trunc_div(x0, s);
        let c1 = trunc_div(x1, s);
        let c2 = trunc_div(x2, s);
        assert(c.x@ == c0 && c.y@ == c1 && c.z@ == c2);
        lemma_lagrange(a, b);
        lemma_rounded_length((c0, c1, c2), (x0, x1, x2), (x0 - c0 * s, x1 - c1 * s, x2 - c2 * s));
    }

    /// The dot product of a unit vector with another vector, against that of
    /// the vector it was made from: for a vector that is not zero, with the
    /// stretch `k` and the stretched length `len`, and another vector with
    /// components between minus one and one,
    /// `dot(unit, other) len` differs from `k SCALE dot(self, other)` by at
    /// most `3 len SCALE`.
    pub proof fn lemma_normalize_dot(self, other: Vec3)
        requires
            self.wf(),
            max_magnitude(self) > 0,
            other.is_within(SCALE as int),
        ensures
            -(3 * (stretched_length(self) * SCALE)) <= raw_dot(self.normalize_spec(), other)
                * stretched_length(self) - (stretch(self) * SCALE) * raw_dot(self, other) <= 3 * (
            stretched_length(self) * SCALE),
    {
        broadcast use Fixed::lemma_of;

        let s = SCALE as int;
        self.lemma_stretched();
        self.lemma_normalize_bounded();
        let k = stretch(self);
        let len = stretched_length(self);
        let u = self.normalize_spec();
        let (u0, u1, u2) = (u.x@, u.y@, u.z@);
        let (v0, v1, v2) = (self.x@, self.y@, self.z@);
        let (o0, o1, o2) = (other.x@, other.y@, other.z@);
        lemma_unit_component_bounded_by_length(k * v0, len);
        lemma_unit_component_bounded_by_length(k * v1, len);
        lemma_unit_component_bounded_by_length(k * v2, len);
        assert(u0 == trunc_div(k * v0 * s, len) && u1 == trunc_div(k * v1 * s, len) && u2
            == trunc_div(k * v2 * s, len));
        lemma_trunc_div_remainder(k * v0 * s, len);
        lemma_trunc_div_remainder(k * v1 * s, len);
        lemma_trunc_div_remainder(k * v2 * s, len);
        let e0 = k * v0 * s - u0 * len;
        let e1 = k * v1 * s - u1 * len;
        let e2 = k * v2 * s - u2 * len;
        let ks = k * s;
        lemma_dot_term(u0, o0, len, k, v0, s, e0);
        lemma_dot_term(u1, o1, len, k, v1, s, e1);
        lemma_dot_term(u2, o2, len, k, v2, s, e2);
        let uo = raw_dot(u, other);
        let vo = raw_dot(self, other);
        assert(uo * len == (u0 * o0) * len + (u1 * o1) * len + (u2 * o2) * len)
            by (nonlinear_arith)
            requires
                uo == u0 * o0 + u1 * o1 + u2 * o2,
        ;
        assert(ks * vo == ks * (v0 * o0) + ks * (v1 * o1) + ks * (v2 * o2)) by (nonlinear_arith)
            requires
                vo == v0 * o0 + v1 * o1 + v2 * o2,
        ;
        lemma_product_bound(e0, o0, len, s);
        lemma_product_bound(e1, o1, len, s);
        lemma_product_bound(e2, o2, len, s);
    }

    /// The product of two colours within the unit range lies within it.
    pub proof fn lemma_mul_in_unit_range(self, rhs: Color)
        requires
            in_unit_range(self),
            in_unit_range(rhs),
        ensures
            in_unit_range(self.mul_spec(rhs)),
    {
        self.x.lemma_mul_by_fraction(rhs.x);
        self.y.lemma_mul_by_fraction(rhs.y);
        self.z.lemma_mul_by_fraction(rhs.z);
    }

    /// The vector with the given components.
    pub fn new(x: Fixed, y: Fixed, z: Fixed) -> (r: Vec3)
        ensures
            r == (Vec3 { x, y, z }),
    {
        Vec3 { x, y, z }
    }

    /// The vector with `v` in every component.
    pub fn splat(v: Fixed) -> (r: Vec3)
        ensures
            r == Vec3::splat_spec(v),
    {
        Vec3 { x: v, y: v, z: v }
    }

    /// The zero vector.
    pub fn zero() -> (r: Vec3)
        ensures
            r == Vec3::zero_spec(),
    {
        Vec3::splat(Fixed::zero())
    }

    /// The sum, component by component.
    pub fn add(self, rhs: Vec3) -> (r: Vec3)
        ensures
            r == self.add_spec(rhs),
    {
        Vec3 { x: self.x.add(rhs.x), y: self.y.add(rhs.y), z: self.z.add(rhs.z) }
    }

    /// The difference, component by component.
    pub fn sub(self, rhs: Vec3) -> (r: Vec3)
        ensures
            r == self.sub_spec(rhs),
    {
        Vec3 { x: self.x.sub(rhs.x), y: self.y.sub(rhs.y), z: self.z.sub(rhs.z) }
    }

    /// The opposite vector.
    pub fn neg(self) -> (r: Vec3)
        ensures
            r == self.neg_spec(),
    {
        Vec3 { x: self.x.neg(), y: self.y.neg(), z: self.z.neg() }
    }

    /// The component-wise product, as used to compose attenuations.
    pub fn mul(self, rhs: Vec3) -> (r: Vec3)
        ensures
            r == self.mul_spec(rhs),
    {
        Vec3 { x: self.x.mul(rhs.x), y: self.y.mul(rhs.y), z: self.z.mul(rhs.z) }
    }

    /// The vector multiplied by the number `t`.
    pub fn scale(self, t: Fixed) -> (r: Vec3)
        ensures
            r == self.scale_spec(t),
    {
        Vec3 { x: self.x.mul(t), y: self.y.mul(t), z: self.z.mul(t) }
    }

    /// The vector divided by the number `t`.
    pub fn div(self, t: Fixed) -> (r: Vec3)
        ensures
            r == self.div_spec(t),
    {
        Vec3 { x: self.x.div(t), y: self.y.div(t), z: self.z.div(t) }
    }

    /// The dot product.
    pub fn dot(self, rhs: Vec3) -> (r: Fixed)
        ensures
            r == self.dot_spec(rhs),
    {
        let sum = wide_dot(self, rhs);
        saturate(div_toward_zero(sum, SCALE as i128))
    }

    /// The cross product.
    pub fn cross(self, rhs: Vec3) -> (r: Vec3)
        ensures
            r == self.cross_spec(rhs),
    {
        Vec3 {
            x: cross_term(self.y, rhs.z, self.z, rhs.y),
            y: cross_term(self.z, rhs.x, self.x, rhs.z),
            z: cross_term(self.x, rhs.y, self.y, rhs.x),
        }
    }

    /// The squared length; it needs no square root.
    pub fn length_squared(self) -> (r: Fixed)
        ensures
            r == self.length_squared_spec(),
    {
        self.dot(self)
    }

    /// The Euclidean length, rounded down to a whole raw unit.
    pub fn length(self) -> (r: Fixed)
        ensures
            r == self.length_spec(),
    {
        let len = wide_length(self);
        saturate(len)
    }

    /// The vector of length one in the same direction; the zero vector, which
    /// has no direction, stays as it is.
    pub fn normalize(self) -> (r: Vec3)
        ensures
            r == self.normalize_spec(),
    {
        let x = self.x.raw() as i128;
        let y = self.y.raw() as i128;
        let z = self.z.raw() as i128;
        let a = wide_magnitude(x);
        let b = wide_magnitude(y);
        let c = wide_magnitude(z);
        let m = if a >= b && a >= c {
            a
        } else if b >= c {
            b
        } else {
            c
        };
        if m == 0 {
            return self;
        }
        proof {
            use_type_invariant(self.x);
            use_type_invariant(self.y);
            use_type_invariant(self.z);
            self.lemma_stretched();
        }
        let k = div_toward_zero(STRETCH_RANGE as i128, m);
        proof {
            lemma_stretched_component(k as int, x as int, m as int);
            lemma_stretched_component(k as int, y as int, m as int);
            lemma_stretched_component(k as int, z as int, m as int);
        }
        let wx = k * x;
        let wy = k * y;
        let wz = k * z;
        proof {
            lemma_product_bound(wx as int, wx as int, STRETCH_RANGE as int, STRETCH_RANGE as int);
            lemma_product_bound(wy as int, wy as int, STRETCH_RANGE as int, STRETCH_RANGE as int);
            lemma_product_bound(wz as int, wz as int, STRETCH_RANGE as int, STRETCH_RANGE as int);
            assert(wx * wx >= 0 && wy * wy >= 0 && wz * wz >= 0) by (nonlinear_arith);
            assert(STRETCH_RANGE * STRETCH_RANGE == 0x1000_0000_0000_0000_0000_0000_0000_0000)
                by (nonlinear_arith);
        }
        let sum: u128 = (wx * wx + wy * wy + wz * wz) as u128;
        let len = floor_sqrt_u128(sum) as i128;
        proof {
            lemma_floor_sqrt_unique(sum as int, len as int);
            lemma_product_bound(wx as int, SCALE as int, STRETCH_RANGE as int, SCALE as int);
            lemma_product_bound(wy as int, SCALE as int, STRETCH_RANGE as int, SCALE as int);
            lemma_product_bound(wz as int, SCALE as int, STRETCH_RANGE as int, SCALE as int);
        }
        Vec3 {
            x: saturate(div_toward_zero(wx * (SCALE as i128), len)),
            y: saturate(div_toward_zero(wy * (SCALE as i128), len)),
            z: saturate(div_toward_zero(wz * (SCALE as i128), len)),
        }
    }
}

/// The magnitude of a wide integer.
fn wide_magnitude(v: i128) -> (m: i128)
    requires
        v > i128::MIN,
    ensures
        m == magnitude(v as int),
{
    if v < 0 {
        -v
    } else {
        v
    }
}

/// Whether every component is closer to zero than `NEAR_ZERO` raw units.
pub fn is_near_zero(v: Vec3) -> (b: bool)
    ensures
        b == v.is_near_zero_spec(),
{
    let x = v.x.raw();
    let y = v.y.raw();
    let z = v.z.raw();
    -NEAR_ZERO < x && x < NEAR_ZERO && -NEAR_ZERO < y && y < NEAR_ZERO && -NEAR_ZERO < z && z
        < NEAR_ZERO
}

/// The exact dot product in squared raw units.
pub(crate) fn wide_dot(a: Vec3, b: Vec3) -> (sum: i128)
    ensures
        sum == raw_dot(a, b),
        -3 * (LIMIT * LIMIT) <= sum <= 3 * (LIMIT * LIMIT),
{
    let ax = a.x.raw();
    let ay = a.y.raw();
    let az = a.z.raw();
    let bx = b.x.raw();
    let by = b.y.raw();
    let bz = b.z.raw();
    proof {
        lemma_product_bound(ax as int, bx as int, LIMIT as int, LIMIT as int);
        lemma_product_bound(ay as int, by as int, LIMIT as int, LIMIT as int);
        lemma_product_bound(az as int, bz as int, LIMIT as int, LIMIT as int);
    }
    (ax as i128) * (bx as i128) + (ay as i128) * (by as i128) + (az as i128) * (bz as i128)
}

/// One component of a cross product: `a * b - c * d`, rounded once.
fn cross_term(a: Fixed, b: Fixed, c: Fixed, d: Fixed) -> (r: Fixed)
    ensures
        r == Fixed::of(clamp(trunc_div(a@ * b@ - c@ * d@, SCALE as int))),
{
    let ar = a.raw();
    let br = b.raw();
    let cr = c.raw();
    let dr = d.raw();
    proof {
        lemma_product_bound(ar as int, br as int, LIMIT as int, LIMIT as int);
        lemma_product_bound(cr as int, dr as int, LIMIT as int, LIMIT as int);
    }
    let wide: i128 = (ar as i128) * (br as i128) - (cr as i128) * (dr as i128);
    saturate(div_toward_zero(wide, SCALE as i128))
}

/// The length of `v` in whole raw units.
fn wide_length(v: Vec3) -> (len: i128)
    ensures
        len == v.raw_length(),
        0 <= len < 0x8000_0000_0000_0000,
{
    let sum = wide_dot(v, v);
    proof {
        assert(v.x@ * v.x@ >= 0) by (nonlinear_arith);
        assert(v.y@ * v.y@ >= 0) by (nonlinear_arith);
        assert(v.z@ * v.z@ >= 0) by (nonlinear_arith);
    }
    let root = floor_sqrt_u128(sum as u128);
    proof {
        lemma_floor_sqrt_unique(sum as int, root as int);
    }
    root as i128
}

} // verus!
