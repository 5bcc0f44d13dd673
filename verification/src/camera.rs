//! The camera: from a place on the image to a ray into the scene.

use crate::fixed::{
    lemma_product_bound, lemma_trunc_div_remainder, magnitude, trunc_div, Fixed, SCALE,
};
use crate::ray::Ray;
use crate::utils::{disk_sample, in_unit_disk, rand_vec3_in_unit_disk, RandomSource, MAX_DRAWS};
use crate::vec3::{max_magnitude, raw_dot, stretch, stretched_length, Point3, Vec3};
use vstd::prelude::*;

verus! {

broadcast use Fixed::lemma_of;

/// Raw units within which the eye, the lens and the image must lie for the
/// arithmetic of a ray to be exact: a quarter of the range of the numbers.
pub const EXACT_RANGE: i64 = 1_000_000_000_000_000_000;

/// A thin-lens camera.
#[derive(Clone, Copy, Debug, PartialEq, Eq, Structural)]
pub struct Camera {
    origin: Point3,
    lower_left_corner: Point3,
    horizontal: Vec3,
    vertical: Vec3,
    front: Vec3,
    right: Vec3,
    up: Vec3,
    lens_radius: Fixed,
}

/// The height of the image plane at distance one for a vertical field of
/// view of `vfov` degrees: `2 * tan(vfov / 2)`.
pub open spec fn viewport_height(vfov: Fixed) -> Fixed {
    Fixed::from_int_spec(2).mul_spec(
        vfov.to_radians_spec().div_spec(Fixed::from_int_spec(2)).tan_spec(),
    )
}

/// The unit vector from the eye toward the point looked at.
pub open spec fn front_spec(lookfrom: Point3, lookat: Point3) -> Vec3 {
    lookat.sub_spec(lookfrom).normalize_spec()
}

/// The unit vector to the right of the view: across the view and the unit
/// vector of `vup`, so that the length of `vup` does not matter.
pub open spec fn right_spec(lookfrom: Point3, lookat: Point3, vup: Vec3) -> Vec3 {
    front_spec(lookfrom, lookat).cross_spec(vup.normalize_spec()).normalize_spec()
}

/// The unit vector up the view.
pub open spec fn up_spec(lookfrom: Point3, lookat: Point3, vup: Vec3) -> Vec3 {
    right_spec(lookfrom, lookat, vup).cross_spec(front_spec(lookfrom, lookat))
}

/// The axis along the view has length one where the eye is not the point
/// looked at, and the axis to the right has length one where the view is not
/// along `vup`: the exact squared length of each falls short of one by at
/// most six raw units and exceeds it by at most two squared raw units.
pub proof fn lemma_axes_unit(lookfrom: Point3, lookat: Point3, vup: Vec3)
    ensures
        max_magnitude(lookat.sub_spec(lookfrom)) != 0 ==> SCALE * SCALE - 6 * SCALE <= raw_dot(
            front_spec(lookfrom, lookat),
            front_spec(lookfrom, lookat),
        ) <= SCALE * SCALE + 2,
        max_magnitude(front_spec(lookfrom, lookat).cross_spec(vup.normalize_spec())) != 0
            ==> SCALE * SCALE - 6
            * SCALE <= raw_dot(right_spec(lookfrom, lookat, vup), right_spec(lookfrom, lookat, vup))
            <= SCALE * SCALE + 2,
{
    let toward = lookat.sub_spec(lookfrom);
    if max_magnitude(toward) != 0 {
        toward.lemma_normalize_unit();
    }
    let across = front_spec(lookfrom, lookat).cross_spec(vup.normalize_spec());
    if max_magnitude(across) != 0 {
        across.lemma_normalize_unit();
    }
}

/// The product of two squared lengths near one, less a small square, is
/// near one.
#[verifier::rlimit(60)]
proof fn lemma_near_one(rr: int, ff: int, rf: int, up: int)
    requires
        SCALE * SCALE - 6 * SCALE <= rr <= SCALE * SCALE + 2,
        SCALE * SCALE - 6 * SCALE <= ff <= SCALE * SCALE + 2,
        -9 * SCALE <= rf <= 9 * SCALE,
        -13 * (SCALE * SCALE * SCALE) <= up * (SCALE * SCALE) - (rr * ff - rf * rf) <= 13 * (SCALE
            * SCALE * SCALE),
    ensures
        SCALE * SCALE - 26 * SCALE <= up <= SCALE * SCALE + 14 * SCALE,
{
    let s = SCALE as int;
    let ss = s * s;
    let sss = s * s * s;
    let lo = ss - 6 * s;
    let hi = ss + 2;
    let prod = rr * ff;
    let sq = rf * rf;
    assert(lo * lo <= prod <= hi * hi) by (nonlinear_arith)
        requires
            0 <= lo <= rr <= hi,
            0 <= lo <= ff <= hi,
            prod == rr * ff,
    ;
    assert(0 <= sq <= 81 * ss) by (nonlinear_arith)
        requires
            -9 * s <= rf <= 9 * s,
            sq == rf * rf,
            ss == s * s,
    ;
    assert(lo * lo >= ss * ss - 12 * sss && hi * hi <= ss * ss + sss && 81 * ss <= sss)
        by (nonlinear_arith)
        requires
            s == 1_000_000_000,
            ss == s * s,
            sss == s * s * s,
            lo == ss - 6 * s,
            hi == ss + 2,
    ;
    let ups = up * ss;
    assert(ss * ss - 26 * sss <= ups <= ss * ss + 14 * sss);
    assert(26 * sss == (26 * s) * ss && 14 * sss == (14 * s) * ss) by (nonlinear_arith)
        requires
            ss == s * s,
            sss == s * s * s,
    ;
    assert(ss - 26 * s <= up <= ss + 14 * s) by (nonlinear_arith)
        requires
            ss * ss - (26 * s) * ss <= up * ss <= ss * ss + (14 * s) * ss,
            ss > 0,
    ;
}

/// The axes of the camera stand at right angles to one another, and the axis
/// up the view has length one. Where the eye is not the point looked at, and
/// the view stands off `vup` far enough that their cross product reaches one
/// half in some component: the exact dot product of the axis to the right
/// with the axis along the view is at most nine raw units, that of the axis
/// up the view with either at most three, and the exact squared length of
/// the axis up the view falls short of one by at most 26 raw units and
/// exceeds it by at most 14.
#[verifier::rlimit(60)]
pub proof fn lemma_axes_orthogonal(lookfrom: Point3, lookat: Point3, vup: Vec3)
    requires
        max_magnitude(lookat.sub_spec(lookfrom)) != 0,
        2 * max_magnitude(front_spec(lookfrom, lookat).cross_spec(vup.normalize_spec())) >= SCALE,
    ensures
        -9 * SCALE <= raw_dot(right_spec(lookfrom, lookat, vup), front_spec(lookfrom, lookat)) <= 9
            * SCALE,
        -3 * SCALE <= raw_dot(up_spec(lookfrom, lookat, vup), front_spec(lookfrom, lookat)) <= 3
            * SCALE,
        -3 * SCALE <= raw_dot(up_spec(lookfrom, lookat, vup), right_spec(lookfrom, lookat, vup))
            <= 3 * SCALE,
        SCALE * SCALE - 26 * SCALE <= raw_dot(
            up_spec(lookfrom, lookat, vup),
            up_spec(lookfrom, lookat, vup),
        ) <= SCALE * SCALE + 14 * SCALE,
{
    let s = SCALE as int;
    let toward = lookat.sub_spec(lookfrom);
    let front = front_spec(lookfrom, lookat);
    let skyward = vup.normalize_spec();
    toward.lemma_normalize_bounded();
    toward.lemma_normalize_unit();
    vup.lemma_normalize_bounded();
    front.lemma_cross_perpendicular(skyward);
    let across = front.cross_spec(skyward);
    let right = right_spec(lookfrom, lookat, vup);
    across.lemma_normalize_bounded();
    across.lemma_normalize_unit();
    across.lemma_stretched();
    across.lemma_normalize_dot(front);
    let k = stretch(across);
    let len = stretched_length(across);
    let ks = k * s;
    let cf = raw_dot(across, front);
    let rf = raw_dot(right, front);
    assert(ks <= 2 * len) by (nonlinear_arith)
        requires
            ks == k * s,
            len >= k * max_magnitude(across),
            2 * max_magnitude(across) >= s,
            k >= 1,
    ;
    lemma_product_bound(ks, cf, 2 * len, 3 * s);
    assert((2 * len) * (3 * s) == 6 * (len * s)) by (nonlinear_arith);
    let ls = len * s;
    assert(-(9 * ls) <= rf * len <= 9 * ls);
    assert(-9 * s <= rf <= 9 * s) by (nonlinear_arith)
        requires
            -(9 * (len * s)) <= rf * len <= 9 * (len * s),
            len > 0,
    ;
    right.lemma_cross_perpendicular(front);
    right.lemma_cross_length(front);
    let up = up_spec(lookfrom, lookat, vup);
    lemma_near_one(raw_dot(right, right), raw_dot(front, front), rf, raw_dot(up, up));
}

/// The square of a sum of two products, term by term.
proof fn lemma_square_of_pair(r: int, a: int, u: int, b: int)
    ensures
        (r * a + u * b) * (r * a + u * b) == (a * a) * (r * r) + (b * b) * (u * u) + 2 * ((a * b)
            * (r * u)),
{
    let x = r * a;
    let y = u * b;
    assert((x + y) * (x + y) == x * x + y * y + 2 * (x * y)) by (nonlinear_arith);
    assert(x * x == (a * a) * (r * r)) by (nonlinear_arith)
        requires
            x == r * a,
    ;
    assert(y * y == (b * b) * (u * u)) by (nonlinear_arith)
        requires
            y == u * b,
    ;
    assert(x * y == (a * b) * (r * u)) by (nonlinear_arith)
        requires
            x == r * a,
            y == u * b,
    ;
}

/// A number scaled by the radius of the lens: the square of the rounded
/// product, times the squared scale, is at most the square of the exact
/// product.
proof fn lemma_scaled_square(w: int)
    ensures
        (trunc_div(w, SCALE as int) * trunc_div(w, SCALE as int)) * (SCALE * SCALE) <= w * w,
{
    let s = SCALE as int;
    let q = trunc_div(w, s);
    let m = magnitude(w);
    let k = m / s;
    vstd::arithmetic::div_mod::lemma_fundamental_div_mod(m, s);
    vstd::arithmetic::div_mod::lemma_mod_bound(m, s);
    vstd::arithmetic::div_mod::lemma_div_pos_is_pos(m, s);
    let ks = k * s;
    assert(ks == s * k) by (nonlinear_arith)
        requires
            ks == k * s,
    ;
    assert(q == k || q == -k);
    assert((q * q) * (s * s) == ks * ks) by (nonlinear_arith)
        requires
            q == k || q == -k,
            ks == k * s,
    ;
    assert(ks * ks <= m * m) by (nonlinear_arith)
        requires
            0 <= ks <= m,
    ;
    assert(m * m == w * w) by (nonlinear_arith)
        requires
            m == w || m == -w,
    ;
}

/// The coordinates on the lens of a point of the unit disk keep within the
/// radius of the lens.
proof fn lemma_lens_coordinates(sx: int, sy: int, lr: int, a: int, b: int)
    requires
        lr >= 0,
        sx * sx + sy * sy < SCALE * SCALE,
        (a * a) * (SCALE * SCALE) <= (sx * lr) * (sx * lr),
        (b * b) * (SCALE * SCALE) <= (sy * lr) * (sy * lr),
    ensures
        a * a + b * b <= lr * lr,
{
    let ss = SCALE * SCALE;
    let l2 = lr * lr;
    let c = sx * sx + sy * sy;
    assert((sx * lr) * (sx * lr) == (sx * sx) * l2) by (nonlinear_arith)
        requires
            l2 == lr * lr,
    ;
    assert((sy * lr) * (sy * lr) == (sy * sy) * l2) by (nonlinear_arith)
        requires
            l2 == lr * lr,
    ;
    let sum = a * a + b * b;
    assert(sum * ss == (a * a) * ss + (b * b) * ss) by (nonlinear_arith)
        requires
            sum == a * a + b * b,
    ;
    assert(c * l2 == (sx * sx) * l2 + (sy * sy) * l2) by (nonlinear_arith)
        requires
            c == sx * sx + sy * sy,
    ;
    assert(sum * ss <= c * l2);
    assert(c * l2 <= ss * l2) by (nonlinear_arith)
        requires
            c <= ss,
            l2 >= 0,
            l2 == lr * lr,
    ;
    assert(sum <= l2) by (nonlinear_arith)
        requires
            sum * ss <= ss * l2,
            ss > 0,
    ;
}

/// One component of the place on the lens: the two rounded products keep to
/// the range, and the roundings take less than two raw units.
proof fn lemma_place(r: int, a: int, u: int, b: int, lr: int)
    requires
        -SCALE <= r <= SCALE,
        -2 * SCALE <= u <= 2 * SCALE,
        -lr <= a <= lr,
        -lr <= b <= lr,
    ensures
        -lr <= trunc_div(r * a, SCALE as int) <= lr,
        -2 * lr <= trunc_div(u * b, SCALE as int) <= 2 * lr,
        -2 * SCALE <= r * a + u * b - (trunc_div(r * a, SCALE as int) + trunc_div(
            u * b,
            SCALE as int,
        )) * SCALE <= 2 * SCALE,
{
    let s = SCALE as int;
    let ra = r * a;
    let ub = u * b;
    let q = trunc_div(ra, s);
    let p = trunc_div(ub, s);
    lemma_trunc_div_remainder(ra, s);
    lemma_trunc_div_remainder(ub, s);
    lemma_product_bound(r, a, s, lr);
    lemma_product_bound(u, b, 2 * s, lr);
    assert(-lr <= q <= lr) by (nonlinear_arith)
        requires
            -s < ra - q * s < s,
            -(s * lr) <= ra <= s * lr,
            s > 0,
            lr >= 0,
    ;
    assert(-2 * lr <= p <= 2 * lr) by (nonlinear_arith)
        requires
            -s < ub - p * s < s,
            -((2 * s) * lr) <= ub <= (2 * s) * lr,
            s > 0,
            lr >= 0,
    ;
    assert((q + p) * s == q * s + p * s) by (nonlinear_arith);
}

/// The heart of the bound on the place of a ray on the lens, in whole
/// numbers: `a` and `b` are the coordinates on the lens, `r` and `u` the axes
/// to the right and up, `rho` what the roundings took, `off` the offset.
#[verifier::rlimit(60)]
proof fn lemma_offset_core(
    s: int,
    lr: int,
    a: int,
    b: int,
    rr: int,
    uu: int,
    ru: int,
    r: (int, int, int),
    u: (int, int, int),
    rho: (int, int, int),
    off: (int, int, int),
)
    requires
        s == SCALE,
        lr >= 0,
        a * a + b * b <= lr * lr,
        rr == r.0 * r.0 + r.1 * r.1 + r.2 * r.2,
        uu == u.0 * u.0 + u.1 * u.1 + u.2 * u.2,
        ru == r.0 * u.0 + r.1 * u.1 + r.2 * u.2,
        0 <= rr <= s * s + 2,
        0 <= uu <= s * s + 14 * s,
        -3 * s <= ru <= 3 * s,
        -s <= r.0 <= s && -s <= r.1 <= s && -s <= r.2 <= s,
        -2 * s <= u.0 <= 2 * s && -2 * s <= u.1 <= 2 * s && -2 * s <= u.2 <= 2 * s,
        -2 * s <= rho.0 <= 2 * s && -2 * s <= rho.1 <= 2 * s && -2 * s <= rho.2 <= 2 * s,
        off.0 * s == r.0 * a + u.0 * b - rho.0,
        off.1 * s == r.1 * a + u.1 * b - rho.1,
        off.2 * s == r.2 * a + u.2 * b - rho.2,
    ensures
        (off.0 * off.0 + off.1 * off.1 + off.2 * off.2) * s <= lr * lr * (s + 17) + (36 * lr + 12)
            * s,
{
    let ss = s * s;
    let a2 = a * a;
    let b2 = b * b;
    let ab = a * b;
    let l2 = lr * lr;
    assert(-lr <= a <= lr && -lr <= b <= lr) by (nonlinear_arith)
        requires
            a * a + b * b <= lr * lr,
            lr >= 0,
    ;
    assert(-(a2 + b2) <= 2 * ab <= a2 + b2) by (nonlinear_arith)
        requires
            a2 == a * a,
            b2 == b * b,
            ab == a * b,
    ;
    assert(a2 >= 0 && b2 >= 0) by (nonlinear_arith)
        requires
            a2 == a * a,
            b2 == b * b,
    ;
    let g0 = r.0 * a + u.0 * b;
    let g1 = r.1 * a + u.1 * b;
    let g2 = r.2 * a + u.2 * b;
    lemma_square_of_pair(r.0, a, u.0, b);
    lemma_square_of_pair(r.1, a, u.1, b);
    lemma_square_of_pair(r.2, a, u.2, b);
    let gg = g0 * g0 + g1 * g1 + g2 * g2;
    assert(a2 * (r.0 * r.0) + a2 * (r.1 * r.1) + a2 * (r.2 * r.2) == a2 * rr) by (nonlinear_arith)
        requires
            rr == r.0 * r.0 + r.1 * r.1 + r.2 * r.2,
    ;
    assert(b2 * (u.0 * u.0) + b2 * (u.1 * u.1) + b2 * (u.2 * u.2) == b2 * uu) by (nonlinear_arith)
        requires
            uu == u.0 * u.0 + u.1 * u.1 + u.2 * u.2,
    ;
    assert(ab * (r.0 * u.0) + ab * (r.1 * u.1) + ab * (r.2 * u.2) == ab * ru) by (nonlinear_arith)
        requires
            ru == r.0 * u.0 + r.1 * u.1 + r.2 * u.2,
    ;
    assert(gg == a2 * rr + b2 * uu + 2 * (ab * ru));
    let cap = ss + 14 * s;
    assert(a2 * rr <= a2 * cap && b2 * uu <= b2 * cap) by (nonlinear_arith)
        requires
            a2 >= 0,
            b2 >= 0,
            0 <= rr <= cap,
            0 <= uu <= cap,
    ;
    let twice = 2 * ab;
    assert(twice * ru <= (a2 + b2) * (3 * s)) by (nonlinear_arith)
        requires
            -(a2 + b2) <= twice <= a2 + b2,
            -3 * s <= ru <= 3 * s,
            a2 + b2 >= 0,
    ;
    assert(twice * ru == 2 * (ab * ru)) by (nonlinear_arith)
        requires
            twice == 2 * ab,
    ;
    let sum = a2 + b2;
    assert(a2 * cap + b2 * cap + sum * (3 * s) == sum * (ss + 17 * s)) by (nonlinear_arith)
        requires
            sum == a2 + b2,
            cap == ss + 14 * s,
    ;
    assert(sum * (ss + 17 * s) <= l2 * (ss + 17 * s)) by (nonlinear_arith)
        requires
            0 <= sum <= l2,
            ss + 17 * s >= 0,
    ;
    assert(gg <= l2 * (ss + 17 * s));
    // what the roundings took
    lemma_product_bound(r.0, a, s, lr);
    lemma_product_bound(r.1, a, s, lr);
    lemma_product_bound(r.2, a, s, lr);
    lemma_product_bound(u.0, b, 2 * s, lr);
    lemma_product_bound(u.1, b, 2 * s, lr);
    lemma_product_bound(u.2, b, 2 * s, lr);
    let sl = s * lr;
    assert((2 * s) * lr == 2 * sl) by (nonlinear_arith)
        requires
            sl == s * lr,
    ;
    lemma_product_bound(g0, rho.0, 3 * sl, 2 * s);
    lemma_product_bound(g1, rho.1, 3 * sl, 2 * s);
    lemma_product_bound(g2, rho.2, 3 * sl, 2 * s);
    lemma_product_bound(rho.0, rho.0, 2 * s, 2 * s);
    lemma_product_bound(rho.1, rho.1, 2 * s, 2 * s);
    lemma_product_bound(rho.2, rho.2, 2 * s, 2 * s);
    assert((3 * sl) * (2 * s) == 6 * (ss * lr) && (2 * s) * (2 * s) == 4 * ss) by (nonlinear_arith)
        requires
            sl == s * lr,
            ss == s * s,
    ;
    let e0 = off.0 * s;
    let e1 = off.1 * s;
    let e2 = off.2 * s;
    assert(e0 * e0 == g0 * g0 - 2 * (g0 * rho.0) + rho.0 * rho.0) by (nonlinear_arith)
        requires
            e0 == g0 - rho.0,
    ;
    assert(e1 * e1 == g1 * g1 - 2 * (g1 * rho.1) + rho.1 * rho.1) by (nonlinear_arith)
        requires
            e1 == g1 - rho.1,
    ;
    assert(e2 * e2 == g2 * g2 - 2 * (g2 * rho.2) + rho.2 * rho.2) by (nonlinear_arith)
        requires
            e2 == g2 - rho.2,
    ;
    assert(e0 * e0 == (off.0 * off.0) * ss) by (nonlinear_arith)
        requires
            e0 == off.0 * s,
            ss == s * s,
    ;
    assert(e1 * e1 == (off.1 * off.1) * ss) by (nonlinear_arith)
        requires
            e1 == off.1 * s,
            ss == s * s,
    ;
    assert(e2 * e2 == (off.2 * off.2) * ss) by (nonlinear_arith)
        requires
            e2 == off.2 * s,
            ss == s * s,
    ;
    let oo = off.0 * off.0 + off.1 * off.1 + off.2 * off.2;
    assert(oo * ss == (off.0 * off.0) * ss + (off.1 * off.1) * ss + (off.2 * off.2) * ss)
        by (nonlinear_arith)
        requires
            oo == off.0 * off.0 + off.1 * off.1 + off.2 * off.2,
    ;
    let top = l2 * (ss + 17 * s) + 36 * (ss * lr) + 12 * ss;
    assert(oo * ss <= top);
    let goal = l2 * (s + 17) + (36 * lr + 12) * s;
    assert(top == goal * s) by (nonlinear_arith)
        requires
            top == l2 * (ss + 17 * s) + 36 * (ss * lr) + 12 * ss,
            goal == l2 * (s + 17) + (36 * lr + 12) * s,
            ss == s * s,
    ;
    let os = oo * s;
    assert(oo * ss == os * s) by (nonlinear_arith)
        requires
            os == oo * s,
            ss == s * s,
    ;
    assert(os <= goal) by (nonlinear_arith)
        requires
            os * s <= goal * s,
            s > 0,
    ;
}

impl Camera {
    /// The eye: the centre of the lens.
    pub closed spec fn origin(&self) -> Point3 {
        self.origin
    }

    /// The lower left corner of the image on the plane of focus.
    pub closed spec fn lower_left_corner(&self) -> Point3 {
        self.lower_left_corner
    }

    /// The vector along the lower edge of the image on the plane of focus.
    pub closed spec fn horizontal(&self) -> Vec3 {
        self.horizontal
    }

    /// The vector along the left edge of the image on the plane of focus.
    pub closed spec fn vertical(&self) -> Vec3 {
        self.vertical
    }

    /// The unit vector along the view.
    pub closed spec fn front(&self) -> Vec3 {
        self.front
    }

    /// The unit vector to the right of the view.
    pub closed spec fn right(&self) -> Vec3 {
        self.right
    }

    /// The unit vector up the view.
    pub closed spec fn up(&self) -> Vec3 {
        self.up
    }

    /// Half the aperture.
    pub closed spec fn lens_radius(&self) -> Fixed {
        self.lens_radius
    }

    /// The place on the lens, relative to its centre, for a point `sample`
    /// of the unit disk.
    pub open spec fn lens_offset(&self, sample: Vec3) -> Vec3 {
        let rd = sample.scale_spec(self.lens_radius());
        self.right().scale_spec(rd.x).add_spec(self.up().scale_spec(rd.y))
    }

    /// The point of the plane of focus that shows at `(u, v)` of the image.
    pub open spec fn target(&self, u: Fixed, v: Fixed) -> Point3 {
        self.lower_left_corner().add_spec(self.horizontal().scale_spec(u)).add_spec(
            self.vertical().scale_spec(v),
        )
    }

    /// The ray from the place on the lens given by `sample` toward the point
    /// of the plane of focus that shows at `(u, v)`.
    pub open spec fn ray_spec(&self, u: Fixed, v: Fixed, sample: Vec3) -> Ray {
        let offset = self.lens_offset(sample);
        Ray {
            origin: self.origin().add_spec(offset),
            direction: self.target(u, v).sub_spec(self.origin()).sub_spec(offset),
        }
    }

    /// The ray for the place `(u, v)` of the image from the place on the lens
    /// that the source `rng` gives, and the source afterwards.
    pub open spec fn ray_from<R: RandomSource>(&self, u: Fixed, v: Fixed, rng: R) -> (Ray, R) {
        let (sample, rest) = disk_sample(rng, MAX_DRAWS as nat);
        (self.ray_spec(u, v, sample), rest)
    }

    /// A ray starts within the lens. For a point `sample` of the unit disk,
    /// a lens radius of at most a thousand million, and axes to the right and
    /// up as `lemma_axes_unit` and `lemma_axes_orthogonal` give them: the
    /// exact squared distance of the place on the lens from its centre is at
    /// most the squared radius, but for seventeen parts in a thousand million
    /// and what the roundings add.
    pub proof fn lemma_lens_offset(&self, sample: Vec3)
        requires
            in_unit_disk(sample),
            0 <= self.lens_radius()@ <= EXACT_RANGE,
            self.right().is_within(SCALE as int),
            self.up().is_within(2 * SCALE),
            raw_dot(self.right(), self.right()) <= SCALE * SCALE + 2,
            raw_dot(self.up(), self.up()) <= SCALE * SCALE + 14 * SCALE,
            -3 * SCALE <= raw_dot(self.up(), self.right()) <= 3 * SCALE,
        ensures
            ({
                let off = self.lens_offset(sample);
                let radius = self.lens_radius()@;
                raw_dot(off, off) * SCALE <= radius * radius * (SCALE + 17) + (36 * radius + 12)
                    * SCALE
            }),
    {
        let s = SCALE as int;
        let lr = self.lens_radius()@;
        let (sx, sy) = (sample.x@, sample.y@);
        let right = self.right();
        let up = self.up();
        // the place on the lens, in the coordinates of the lens
        let ssq = raw_dot(sample, sample);
        assert(ssq == sx * sx + sy * sy) by (nonlinear_arith)
            requires
                ssq == sx * sx + sy * sy + sample.z@ * sample.z@,
                sample.z@ == 0,
        ;
        assert(sx * sx >= 0 && sy * sy >= 0) by (nonlinear_arith);
        if ssq >= s * s {
            vstd::arithmetic::div_mod::lemma_div_is_ordered(s * s, ssq, s);
            vstd::arithmetic::div_mod::lemma_div_by_multiple(s, s);
        }
        assert(ssq < s * s);
        lemma_product_bound(sx, lr, s, lr);
        lemma_product_bound(sy, lr, s, lr);
        let a = trunc_div(sx * lr, s);
        let b = trunc_div(sy * lr, s);
        lemma_scaled_square(sx * lr);
        lemma_scaled_square(sy * lr);
        lemma_lens_coordinates(sx, sy, lr, a, b);
        let rd = sample.scale_spec(self.lens_radius());
        assert(-lr <= a <= lr && -lr <= b <= lr) by (nonlinear_arith)
            requires
                a * a + b * b <= lr * lr,
                lr >= 0,
        ;
        assert(rd.x@ == a && rd.y@ == b);
        // the offset
        let (r0, r1, r2) = (right.x@, right.y@, right.z@);
        let (u0, u1, u2) = (up.x@, up.y@, up.z@);
        lemma_place(r0, a, u0, b, lr);
        lemma_place(r1, a, u1, b, lr);
        lemma_place(r2, a, u2, b, lr);
        let off = self.lens_offset(sample);
        let f0 = trunc_div(r0 * a, s) + trunc_div(u0 * b, s);
        let f1 = trunc_div(r1 * a, s) + trunc_div(u1 * b, s);
        let f2 = trunc_div(r2 * a, s) + trunc_div(u2 * b, s);
        assert(off.x@ == f0 && off.y@ == f1 && off.z@ == f2);
        assert(r0 * r0 >= 0 && r1 * r1 >= 0 && r2 * r2 >= 0 && u0 * u0 >= 0 && u1 * u1 >= 0 && u2
            * u2 >= 0) by (nonlinear_arith);
        assert(raw_dot(up, right) == r0 * u0 + r1 * u1 + r2 * u2) by (nonlinear_arith)
            requires
                raw_dot(up, right) == u0 * r0 + u1 * r1 + u2 * r2,
        ;
        lemma_offset_core(
            s,
            lr,
            a,
            b,
            raw_dot(right, right),
            raw_dot(up, up),
            raw_dot(up, right),
            (r0, r1, r2),
            (u0, u1, u2),
            (r0 * a + u0 * b - f0 * s, r1 * a + u1 * b - f1 * s, r2 * a + u2 * b - f2 * s),
            (f0, f1, f2),
        );
    }

    /// With no aperture every ray starts at the eye.
    pub proof fn lemma_pinhole(&self, u: Fixed, v: Fixed, sample: Vec3)
        requires
            self.origin().wf(),
            self.lens_radius()@ == 0,
        ensures
            self.ray_spec(u, v, sample).origin == self.origin(),
    {
        let rd = sample.scale_spec(self.lens_radius());
        assert(sample.x@ * 0 == 0 && sample.y@ * 0 == 0);
        assert(rd.x@ == 0 && rd.y@ == 0);
        assert(self.right().x@ * 0 == 0 && self.right().y@ * 0 == 0 && self.right().z@ * 0 == 0);
        assert(self.up().x@ * 0 == 0 && self.up().y@ * 0 == 0 && self.up().z@ * 0 == 0);
        let offset = self.lens_offset(sample);
        assert(offset.x@ == 0 && offset.y@ == 0 && offset.z@ == 0);
        let o = self.origin();
        o.x.lemma_of_view();
        o.y.lemma_of_view();
        o.z.lemma_of_view();
    }

    /// Wherever on the lens a ray starts, at parameter one it passes through
    /// the point of the plane of focus that it was aimed at: what lies in the
    /// plane of focus is sharp.
    pub proof fn lemma_focus(&self, u: Fixed, v: Fixed, sample: Vec3)
        requires
            self.origin().is_within(EXACT_RANGE as int),
            self.lens_offset(sample).is_within(EXACT_RANGE as int),
            self.target(u, v).is_within(EXACT_RANGE as int),
        ensures
            self.ray_spec(u, v, sample).at_spec(Fixed::one_spec()) == self.target(u, v),
    {
        let r = self.ray_spec(u, v, sample);
        let target = self.target(u, v);
        r.direction.x.lemma_mul_one();
        r.direction.y.lemma_mul_one();
        r.direction.z.lemma_mul_one();
        let p = r.at_spec(Fixed::one_spec());
        assert(p.x@ == target.x@ && p.y@ == target.y@ && p.z@ == target.z@);
        target.x.lemma_of_view();
        target.y.lemma_of_view();
        target.z.lemma_of_view();
    }

    /// A camera at `lookfrom` that looks at `lookat` with `vup` upward.
    ///
    /// * `vfov` - vertical field of view in degrees
    pub fn new(
        lookfrom: Point3,
        lookat: Point3,
        vup: Vec3,
        vfov: Fixed,
        aspect_ratio: Fixed,
        aperture: Fixed,
        focus_dist: Fixed,
    ) -> (cam: Camera)
        ensures
            cam.origin() == lookfrom,
            cam.front() == front_spec(lookfrom, lookat),
            cam.right() == right_spec(lookfrom, lookat, vup),
            cam.up() == up_spec(lookfrom, lookat, vup),
            cam.horizontal() == cam.right().scale_spec(
                focus_dist.mul_spec(aspect_ratio.mul_spec(viewport_height(vfov))),
            ),
            cam.vertical() == cam.up().scale_spec(focus_dist.mul_spec(viewport_height(vfov))),
            cam.lower_left_corner() == lookfrom.sub_spec(
                cam.horizontal().div_spec(Fixed::from_int_spec(2)),
            ).sub_spec(cam.vertical().div_spec(Fixed::from_int_spec(2))).add_spec(
                cam.front().scale_spec(focus_dist),
            ),
            cam.lens_radius() == aperture.div_spec(Fixed::from_int_spec(2)),
    {
        let two = Fixed::from_int(2);
        let theta = vfov.to_radians();
        let h = theta.div(two).tan();
        let viewport_height = two.mul(h);
        let viewport_width = aspect_ratio.mul(viewport_height);

        let front = lookat.sub(lookfrom).normalize();
        let right = front.cross(vup.normalize()).normalize();
        let up = right.cross(front);

        let origin = lookfrom;

        let horizontal = right.scale(focus_dist.mul(viewport_width));
        let vertical = up.scale(focus_dist.mul(viewport_height));
        let lower_left_corner = origin.sub(horizontal.div(two)).sub(vertical.div(two)).add(
            front.scale(focus_dist),
        );

        let lens_radius = aperture.div(two);

        Camera { origin, lower_left_corner, horizontal, vertical, front, right, up, lens_radius }
    }

    /// The ray for the place `(u, v)` of the image, each from zero to one,
    /// from the place on the lens given by the point `sample` of the unit disk.
    pub fn get_ray_with(&self, u: Fixed, v: Fixed, sample: Vec3) -> (r: Ray)
        ensures
            r == self.ray_spec(u, v, sample),
            self.lens_radius()@ == 0 ==> r.origin == self.origin(),
            self.origin().is_within(EXACT_RANGE as int) && self.lens_offset(sample).is_within(
                EXACT_RANGE as int,
            ) && self.target(u, v).is_within(EXACT_RANGE as int) ==> r.at_spec(Fixed::one_spec())
                == self.target(u, v),
    {
        proof {
            use_type_invariant(self.origin.x);
            use_type_invariant(self.origin.y);
            use_type_invariant(self.origin.z);
            if self.lens_radius()@ == 0 {
                self.lemma_pinhole(u, v, sample);
            }
            if self.origin().is_within(EXACT_RANGE as int) && self.lens_offset(sample).is_within(
                EXACT_RANGE as int,
            ) && self.target(u, v).is_within(EXACT_RANGE as int) {
                self.lemma_focus(u, v, sample);
            }
        }
        let rd = sample.scale(self.lens_radius);
        let offset = self.right.scale(rd.x).add(self.up.scale(rd.y));
        Ray::new(
            self.origin.add(offset),
            self.lower_left_corner.add(self.horizontal.scale(u)).add(self.vertical.scale(v)).sub(
                self.origin,
            ).sub(offset),
        )
    }

    /// The ray for the place `(u, v)` of the image, from a place on the lens
    /// drawn from `rng`.
    pub fn get_ray<R: RandomSource>(&self, u: Fixed, v: Fixed, rng: &mut R) -> (r: Ray)
        ensures
            (r, *final(rng)) == self.ray_from(u, v, *old(rng)),
            self.lens_radius()@ == 0 ==> r.origin == self.origin(),
    {
        let sample = rand_vec3_in_unit_disk(rng);
        self.get_ray_with(u, v, sample)
    }
}

} // verus!
