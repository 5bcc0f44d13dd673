//! The sphere, the one primitive.
//!
//! The quadratic of a ray and a sphere is solved for the unit vector of the
//! direction, so that its solutions are distances, and its discriminant is
//! taken as the squared radius less the squared distance of the line from the
//! centre. Neither the length of the direction nor the distance of the origin
//! costs digits that way. The distance is then turned into the parameter of
//! the ray.

use crate::fixed::{
    clamp, div_toward_zero, floor_sqrt, floor_sqrt_u128, lemma_floor_sqrt_exists,
    lemma_floor_sqrt_unique, lemma_product_bound, lemma_square_of_three,
    lemma_trunc_div_monotone, lemma_trunc_div_remainder, magnitude, saturate, trunc_div, Fixed,
    LIMIT, SCALE,
};
use crate::hittable::{in_window, never_amplifies, HitRecord, Hittable};
use crate::material::AnyMaterial;
use crate::ray::Ray;
use crate::vec3::{max_magnitude, raw_dot, stretch, stretched_length, wide_dot, Point3, Vec3};
use vstd::prelude::*;

verus! {

broadcast use Fixed::lemma_of;

/// The vector from the centre of a sphere to the origin of the ray.
pub open spec fn offset(center: Point3, r: Ray) -> Vec3 {
    r.origin.sub_spec(center)
}

/// Half the linear coefficient of the quadratic
/// `t^2 + 2 half_b t + c = 0`, whose solutions are the distances at which a
/// ray of unit direction meets the sphere: the dot product of the offset with
/// the unit vector of the direction. The point of the line nearest to the
/// centre lies at the distance `-half_b`.
pub open spec fn half_b(center: Point3, r: Ray) -> Fixed {
    offset(center, r).dot_spec(r.direction.normalize_spec())
}

/// The vector from the centre to the nearest point of the line of the ray:
/// the offset less its part along the direction.
pub open spec fn perpendicular(center: Point3, r: Ray) -> Vec3 {
    offset(center, r).sub_spec(r.direction.normalize_spec().scale_spec(half_b(center, r)))
}

/// The discriminant of the quadratic, `half_b^2 - c`, taken as the squared
/// radius less the squared distance of the line from the centre, which is
/// the same number and loses no digits: exact, in squared raw units.
pub open spec fn raw_discriminant(center: Point3, radius: Fixed, r: Ray) -> int {
    radius@ * radius@ - raw_dot(perpendicular(center, r), perpendicular(center, r))
}

/// The root of the discriminant, rounded down: half the length of the chord
/// that the sphere cuts from the line.
pub open spec fn half_chord(center: Point3, radius: Fixed, r: Ray) -> Fixed {
    Fixed::of(clamp(floor_sqrt(raw_discriminant(center, radius, r))))
}

/// The smaller solution: `-half_b - sqrt(discriminant)`, a distance.
pub open spec fn near_root(center: Point3, radius: Fixed, r: Ray) -> Fixed {
    half_b(center, r).neg_spec().sub_spec(half_chord(center, radius, r))
}

/// The larger solution: `-half_b + sqrt(discriminant)`, a distance.
pub open spec fn far_root(center: Point3, radius: Fixed, r: Ray) -> Fixed {
    half_b(center, r).neg_spec().add_spec(half_chord(center, radius, r))
}

/// The vector from the centre of the sphere to the point that lies at the
/// distance `distance` from the origin of the ray along the unit vector of
/// its direction.
pub open spec fn reach(center: Point3, r: Ray, distance: Fixed) -> Vec3 {
    offset(center, r).add_spec(r.direction.normalize_spec().scale_spec(distance))
}

/// A component of a vector whose squared length is at most the square of
/// `radius` is at most `radius` in magnitude.
proof fn lemma_component_within(a: int, b: int, c: int, radius: int)
    by (nonlinear_arith)
    requires
        radius >= 0,
        a * a + b * b + c * c <= radius * radius,
    ensures
        -radius <= a <= radius,
{
}

/// One component of the point of a solution, in terms of the perpendicular
/// and the half chord: `w s = p s + u hs - (mu + nu)`.
proof fn lemma_reach_component(
    oc: int,
    u: int,
    hb: int,
    hs: int,
    m: int,
    mu: int,
    n: int,
    nu: int,
    s: int,
)
    by (nonlinear_arith)
    requires
        m * s == u * hb - mu,
        n * s == u * (hs - hb) - nu,
    ensures
        (oc + n) * s == (oc - m) * s + u * hs - (mu + nu),
{
}

/// The heart of the bound on the distance of a solution from the sphere, in
/// whole numbers: `w` is the vector from the centre to the point, `p` the
/// perpendicular, `u` the unit direction, `h` the half chord with its sign
/// `hs`, `l` what the roundings took from each component.
#[verifier::rlimit(60)]
proof fn lemma_residual(
    s: int,
    m: int,
    rr: int,
    h: int,
    hs: int,
    sigma: int,
    delta: int,
    pu: int,
    p: (int, int, int),
    u: (int, int, int),
    l: (int, int, int),
    w: (int, int, int),
)
    requires
        s == SCALE,
        s <= m,
        hs == h || hs == -h,
        0 <= h <= m,
        u.0 * u.0 + u.1 * u.1 + u.2 * u.2 == s * s + delta,
        -6 * s <= delta <= 2,
        rr - (p.0 * p.0 + p.1 * p.1 + p.2 * p.2) == h * h + sigma,
        0 <= sigma <= 2 * h,
        pu == p.0 * u.0 + p.1 * u.1 + p.2 * u.2,
        -28 * m <= pu <= 28 * m,
        -m <= p.0 <= m && -m <= p.1 <= m && -m <= p.2 <= m,
        -s <= u.0 <= s && -s <= u.1 <= s && -s <= u.2 <= s,
        -2 * s <= l.0 <= 2 * s && -2 * s <= l.1 <= 2 * s && -2 * s <= l.2 <= 2 * s,
        w.0 * s == p.0 * s + u.0 * hs - l.0,
        w.1 * s == p.1 * s + u.1 * hs - l.1,
        w.2 * s == p.2 * s + u.2 * hs - l.2,
    ensures
        -100 * (s * (m * m)) <= (w.0 * w.0 + w.1 * w.1 + w.2 * w.2 - rr) * (s * s) <= 100 * (s * (m
            * m)),
{
    let ss = s * s;
    let smm = s * (m * m);
    let h2 = hs * hs;
    let sh = s * hs;
    assert(h2 == h * h) by (nonlinear_arith)
        requires
            hs == h || hs == -h,
            h2 == hs * hs,
    ;
    lemma_square_of_three(p.0, u.0, hs, l.0, s);
    lemma_square_of_three(p.1, u.1, hs, l.1, s);
    lemma_square_of_three(p.2, u.2, hs, l.2, s);
    let w0 = w.0 * s;
    let w1 = w.1 * s;
    let w2 = w.2 * s;
    assert(w0 * w0 == (w.0 * w.0) * ss) by (nonlinear_arith)
        requires
            w0 == w.0 * s,
            ss == s * s,
    ;
    assert(w1 * w1 == (w.1 * w.1) * ss) by (nonlinear_arith)
        requires
            w1 == w.1 * s,
            ss == s * s,
    ;
    assert(w2 * w2 == (w.2 * w.2) * ss) by (nonlinear_arith)
        requires
            w2 == w.2 * s,
            ss == s * s,
    ;
    let ww = w.0 * w.0 + w.1 * w.1 + w.2 * w.2;
    assert(ww * ss == (w.0 * w.0) * ss + (w.1 * w.1) * ss + (w.2 * w.2) * ss) by (nonlinear_arith)
        requires
            ww == w.0 * w.0 + w.1 * w.1 + w.2 * w.2,
    ;
    let pp = p.0 * p.0 + p.1 * p.1 + p.2 * p.2;
    let aa = u.0 * u.0 + u.1 * u.1 + u.2 * u.2;
    let ll = l.0 * l.0 + l.1 * l.1 + l.2 * l.2;
    let pl = p.0 * l.0 + p.1 * l.1 + p.2 * l.2;
    let ul = u.0 * l.0 + u.1 * l.1 + u.2 * l.2;
    assert(ss * (p.0 * p.0) + ss * (p.1 * p.1) + ss * (p.2 * p.2) == ss * pp) by (nonlinear_arith)
        requires
            pp == p.0 * p.0 + p.1 * p.1 + p.2 * p.2,
    ;
    assert(h2 * (u.0 * u.0) + h2 * (u.1 * u.1) + h2 * (u.2 * u.2) == h2 * aa) by (nonlinear_arith)
        requires
            aa == u.0 * u.0 + u.1 * u.1 + u.2 * u.2,
    ;
    assert(sh * (p.0 * u.0) + sh * (p.1 * u.1) + sh * (p.2 * u.2) == sh * pu) by (nonlinear_arith)
        requires
            pu == p.0 * u.0 + p.1 * u.1 + p.2 * u.2,
    ;
    assert(s * (p.0 * l.0) + s * (p.1 * l.1) + s * (p.2 * l.2) == s * pl) by (nonlinear_arith)
        requires
            pl == p.0 * l.0 + p.1 * l.1 + p.2 * l.2,
    ;
    assert(hs * (u.0 * l.0) + hs * (u.1 * l.1) + hs * (u.2 * l.2) == hs * ul) by (nonlinear_arith)
        requires
            ul == u.0 * l.0 + u.1 * l.1 + u.2 * l.2,
    ;
    assert(ww * ss == ss * pp + h2 * aa + ll + 2 * (sh * pu) - 2 * (s * pl) - 2 * (hs * ul));
    let t1 = sigma * ss;
    let t2 = h2 * delta;
    let t4 = sh * pu;
    let t5 = s * pl;
    let t6 = hs * ul;
    assert(h2 * aa == h2 * ss + t2) by (nonlinear_arith)
        requires
            aa == ss + delta,
            t2 == h2 * delta,
    ;
    assert(ss * pp + h2 * ss == rr * ss - t1) by (nonlinear_arith)
        requires
            rr - pp == h2 + sigma,
            t1 == sigma * ss,
    ;
    let err = (ww - rr) * ss;
    assert(err == ww * ss - rr * ss) by (nonlinear_arith)
        requires
            err == (ww - rr) * ss,
    ;
    assert(err == -t1 + t2 + ll + 2 * t4 - 2 * t5 - 2 * t6);
    // the sizes
    assert(ss <= s * m && s * m <= m * m && 0 < ss) by (nonlinear_arith)
        requires
            ss == s * s,
            0 < s <= m,
    ;
    assert(m * ss <= smm && ss <= smm) by (nonlinear_arith)
        requires
            smm == s * (m * m),
            ss == s * s,
            0 < s <= m,
    ;
    lemma_product_bound(sigma, ss, 2 * m, ss);
    assert((2 * m) * ss == 2 * (m * ss)) by (nonlinear_arith);
    assert(-2 * smm <= t1 <= 2 * smm);
    lemma_product_bound(hs, hs, m, m);
    lemma_product_bound(h2, delta, m * m, 6 * s);
    assert((m * m) * (6 * s) == 6 * smm) by (nonlinear_arith)
        requires
            smm == s * (m * m),
    ;
    assert(-6 * smm <= t2 <= 6 * smm);
    lemma_product_bound(l.0, l.0, 2 * s, 2 * s);
    lemma_product_bound(l.1, l.1, 2 * s, 2 * s);
    lemma_product_bound(l.2, l.2, 2 * s, 2 * s);
    assert((2 * s) * (2 * s) == 4 * ss) by (nonlinear_arith)
        requires
            ss == s * s,
    ;
    assert(-12 * smm <= ll <= 12 * smm);
    lemma_product_bound(s, hs, s, m);
    lemma_product_bound(sh, pu, s * m, 28 * m);
    assert((s * m) * (28 * m) == 28 * smm) by (nonlinear_arith)
        requires
            smm == s * (m * m),
    ;
    assert(-28 * smm <= t4 <= 28 * smm);
    lemma_product_bound(p.0, l.0, m, 2 * s);
    lemma_product_bound(p.1, l.1, m, 2 * s);
    lemma_product_bound(p.2, l.2, m, 2 * s);
    assert(-(3 * (m * (2 * s))) <= pl <= 3 * (m * (2 * s)));
    lemma_product_bound(s, pl, s, 3 * (m * (2 * s)));
    assert(s * (3 * (m * (2 * s))) == 6 * (m * ss)) by (nonlinear_arith)
        requires
            ss == s * s,
    ;
    assert(-6 * smm <= t5 <= 6 * smm);
    lemma_product_bound(u.0, l.0, s, 2 * s);
    lemma_product_bound(u.1, l.1, s, 2 * s);
    lemma_product_bound(u.2, l.2, s, 2 * s);
    assert(s * (2 * s) == 2 * ss) by (nonlinear_arith)
        requires
            ss == s * s,
    ;
    assert(-6 * ss <= ul <= 6 * ss);
    lemma_product_bound(hs, ul, m, 6 * ss);
    assert(m * (6 * ss) == 6 * (m * ss)) by (nonlinear_arith);
    assert(-6 * smm <= t6 <= 6 * smm);
}

/// A component of the perpendicular times the matching component of the
/// unit direction, times the scale: `(oc - m) u s = oc u s - u u hb + mu u`.
proof fn lemma_perpendicular_term(oc: int, u: int, hb: int, m: int, mu: int, s: int)
    by (nonlinear_arith)
    requires
        m * s == u * hb - mu,
    ensures
        ((oc - m) * u) * s == (oc * u) * s - (u * u) * hb + mu * u,
{
}

/// The range in which the bound on the distance of a solution from the
/// sphere is stated: up to a million in every coordinate.
pub const ORDINARY_RANGE: i64 = 1_000_000_000_000_000;

/// The solutions lie on the sphere. For a ray with a direction whose line
/// meets the sphere, with the offset of its origin from the centre and the
/// radius within `bound`, between one and a million: the point at either
/// solution, along the unit vector of the direction, has a squared distance
/// from the centre that differs from the squared radius by at most
/// `100 bound^2 / SCALE` squared raw units. For coordinates up to one that
/// is a tenth of a millionth of the squared radius of a unit sphere.
#[verifier::rlimit(60)]
pub proof fn lemma_root_on_sphere(center: Point3, radius: Fixed, r: Ray, bound: int, far: bool)
    requires
        meets(center, radius, r),
        r.direction.wf(),
        offset(center, r).is_within(bound),
        -bound <= radius@ <= bound,
        SCALE <= bound <= ORDINARY_RANGE,
    ensures
        ({
            let distance = if far {
                far_root(center, radius, r)
            } else {
                near_root(center, radius, r)
            };
            let w = reach(center, r, distance);
            &&& -100 * (bound * bound) <= (raw_dot(w, w) - radius@ * radius@) * SCALE <= 100 * (
            bound * bound)
            &&& -4 * bound <= distance@ <= 4 * bound
            &&& w.is_within(7 * bound)
        }),
{
    let s = SCALE as int;
    let m = bound;
    let ss = s * s;
    let unit = r.direction.normalize_spec();
    r.direction.lemma_normalize_bounded();
    r.direction.lemma_normalize_unit();
    let oc = offset(center, r);
    let (ux, uy, uz) = (unit.x@, unit.y@, unit.z@);
    let (ox, oy, oz) = (oc.x@, oc.y@, oc.z@);
    let aa = raw_dot(unit, unit);
    let delta = aa - ss;
    // half_b
    let bb = raw_dot(oc, unit);
    lemma_product_bound(ox, ux, m, s);
    lemma_product_bound(oy, uy, m, s);
    lemma_product_bound(oz, uz, m, s);
    assert(-(3 * (m * s)) <= bb <= 3 * (m * s));
    let hb = trunc_div(bb, s);
    lemma_trunc_div_remainder(bb, s);
    let beta = bb - hb * s;
    assert(-3 * m <= hb <= 3 * m) by (nonlinear_arith)
        requires
            -s < bb - hb * s < s,
            -(3 * (m * s)) <= bb <= 3 * (m * s),
            s > 0,
    ;
    assert(half_b(center, r)@ == hb);
    // the part of the offset along the direction, and the perpendicular
    let mx = trunc_div(ux * hb, s);
    let my = trunc_div(uy * hb, s);
    let mz = trunc_div(uz * hb, s);
    lemma_along(ux, hb, m);
    lemma_along(uy, hb, m);
    lemma_along(uz, hb, m);
    let mux = ux * hb - mx * s;
    let muy = uy * hb - my * s;
    let muz = uz * hb - mz * s;
    let perp = perpendicular(center, r);
    let (px, py, pz) = (ox - mx, oy - my, oz - mz);
    assert(perp.x@ == px && perp.y@ == py && perp.z@ == pz);
    let pp = raw_dot(perp, perp);
    let rr = radius@ * radius@;
    assert(px * px >= 0 && py * py >= 0 && pz * pz >= 0) by (nonlinear_arith);
    // the half chord
    let disc = raw_discriminant(center, radius, r);
    assert(disc == rr - pp);
    lemma_floor_sqrt_exists(disc);
    let h = floor_sqrt(disc);
    let sigma = disc - h * h;
    assert(0 <= sigma <= 2 * h) by (nonlinear_arith)
        requires
            h * h <= disc < (h + 1) * (h + 1),
            sigma == disc - h * h,
    ;
    let reach_of_radius = magnitude(radius@);
    assert(rr == reach_of_radius * reach_of_radius) by (nonlinear_arith)
        requires
            rr == radius@ * radius@,
            reach_of_radius == radius@ || reach_of_radius == -radius@,
    ;
    assert(h <= reach_of_radius) by (nonlinear_arith)
        requires
            0 <= h,
            h * h <= reach_of_radius * reach_of_radius,
            reach_of_radius >= 0,
    ;
    lemma_component_within(px, py, pz, reach_of_radius);
    lemma_component_within(py, pz, px, reach_of_radius);
    lemma_component_within(pz, px, py, reach_of_radius);
    assert(half_chord(center, radius, r)@ == h);
    // the solution and its point
    let hs = if far {
        h
    } else {
        -h
    };
    let distance = if far {
        far_root(center, radius, r)
    } else {
        near_root(center, radius, r)
    };
    let sd = hs - hb;
    assert(distance@ == sd);
    let nx = trunc_div(ux * sd, s);
    let ny = trunc_div(uy * sd, s);
    let nz = trunc_div(uz * sd, s);
    lemma_along(ux, sd, 2 * m);
    lemma_along(uy, sd, 2 * m);
    lemma_along(uz, sd, 2 * m);
    let nux = ux * sd - nx * s;
    let nuy = uy * sd - ny * s;
    let nuz = uz * sd - nz * s;
    let w = reach(center, r, distance);
    assert(w.x@ == ox + nx && w.y@ == oy + ny && w.z@ == oz + nz);
    lemma_reach_component(ox, ux, hb, hs, mx, mux, nx, nux, s);
    lemma_reach_component(oy, uy, hb, hs, my, muy, ny, nuy, s);
    lemma_reach_component(oz, uz, hb, hs, mz, muz, nz, nuz, s);
    // the perpendicular is nearly at right angles to the direction
    let pu = px * ux + py * uy + pz * uz;
    lemma_perpendicular_term(ox, ux, hb, mx, mux, s);
    lemma_perpendicular_term(oy, uy, hb, my, muy, s);
    lemma_perpendicular_term(oz, uz, hb, mz, muz, s);
    let mu_u = mux * ux + muy * uy + muz * uz;
    assert(pu * s == (px * ux) * s + (py * uy) * s + (pz * uz) * s) by (nonlinear_arith)
        requires
            pu == px * ux + py * uy + pz * uz,
    ;
    assert(bb * s == (ox * ux) * s + (oy * uy) * s + (oz * uz) * s) by (nonlinear_arith)
        requires
            bb == ox * ux + oy * uy + oz * uz,
    ;
    assert(aa * hb == (ux * ux) * hb + (uy * uy) * hb + (uz * uz) * hb) by (nonlinear_arith)
        requires
            aa == ux * ux + uy * uy + uz * uz,
    ;
    assert(pu * s == bb * s - aa * hb + mu_u);
    let t_beta = beta * s;
    let t_delta = delta * hb;
    assert(bb * s - aa * hb == t_beta - t_delta) by (nonlinear_arith)
        requires
            beta == bb - hb * s,
            delta == aa - s * s,
            t_beta == beta * s,
            t_delta == delta * hb,
    ;
    lemma_product_bound(beta, s, s, s);
    lemma_product_bound(delta, hb, 6 * s, 3 * m);
    lemma_product_bound(mux, ux, s, s);
    lemma_product_bound(muy, uy, s, s);
    lemma_product_bound(muz, uz, s, s);
    assert((6 * s) * (3 * m) == 18 * (s * m) && s * s <= s * m) by (nonlinear_arith)
        requires
            0 < s <= m,
    ;
    assert(-(22 * (s * m)) <= pu * s <= 22 * (s * m));
    assert(-28 * m <= pu <= 28 * m) by (nonlinear_arith)
        requires
            -(22 * (s * m)) <= pu * s <= 22 * (s * m),
            s > 0,
            m > 0,
    ;
    lemma_residual(
        s,
        m,
        rr,
        h,
        hs,
        sigma,
        delta,
        pu,
        (px, py, pz),
        (ux, uy, uz),
        (mux + nux, muy + nuy, muz + nuz),
        (w.x@, w.y@, w.z@),
    );
    let err = raw_dot(w, w) - rr;
    assert(-100 * (m * m) <= err * s <= 100 * (m * m)) by (nonlinear_arith)
        requires
            -100 * (s * (m * m)) <= err * (s * s) <= 100 * (s * (m * m)),
            s > 0,
    ;
}

/// A component of a unit vector times a distance of at most `3 m`, rounded:
/// the result is at most `3 m` in magnitude, and the rounding takes less
/// than one raw unit.
proof fn lemma_along(u: int, distance: int, m: int)
    requires
        -SCALE <= u <= SCALE,
        -3 * m <= distance <= 3 * m,
        m > 0,
    ensures
        -3 * m <= trunc_div(u * distance, SCALE as int) <= 3 * m,
        -SCALE < u * distance - trunc_div(u * distance, SCALE as int) * SCALE < SCALE,
{
    let s = SCALE as int;
    lemma_trunc_div_remainder(u * distance, s);
    lemma_product_bound(u, distance, s, 3 * m);
    let q = trunc_div(u * distance, s);
    let ud = u * distance;
    assert(-3 * m <= q <= 3 * m) by (nonlinear_arith)
        requires
            -s < ud - q * s < s,
            -(s * (3 * m)) <= ud <= s * (3 * m),
            s > 0,
    ;
}

/// What the change from distance to parameter costs, in whole numbers: a
/// component `d` of the direction times the parameter `t` against the
/// matching component `u` of the unit vector times the distance `sd`. `k` is
/// the stretch of the direction and `len` its stretched length, `mm` and `q`
/// the largest component of the direction and of its unit vector.
#[verifier::rlimit(60)]
proof fn lemma_parameter_error(
    s: int,
    d: int,
    u: int,
    k: int,
    len: int,
    upsilon: int,
    q: int,
    mm: int,
    lead: int,
    sd: int,
    t: int,
    tau: int,
)
    requires
        s == SCALE,
        k >= 1,
        mm >= 1,
        0 < len <= 2 * (k * mm),
        u * len == (k * d) * s - upsilon,
        -len < upsilon < len,
        q * len == (k * mm) * s - lead,
        0 <= lead < len,
        t * mm == sd * q - tau,
        -mm < tau < mm,
        -mm <= d <= mm,
        -s <= u <= s,
        0 <= q <= s,
    ensures
        -(mm + 4 * magnitude(sd)) <= d * t - u * sd <= mm + 4 * magnitude(sd),
{
    let km = k * mm;
    let z = km * s;
    let dk = (k * d) * s;
    let a = magnitude(sd);
    let y = d * t - u * sd;
    let sq = sd * q;
    let us = u * sd;
    assert((d * t) * z == dk * (t * mm)) by (nonlinear_arith)
        requires
            z == (k * mm) * s,
            dk == (k * d) * s,
    ;
    assert(dk * (t * mm) == dk * sq - dk * tau) by (nonlinear_arith)
        requires
            t * mm == sq - tau,
    ;
    assert(us * z == (u * len) * sq + us * lead) by (nonlinear_arith)
        requires
            us == u * sd,
            sq == sd * q,
            q * len == z - lead,
    ;
    assert((u * len) * sq == dk * sq - upsilon * sq) by (nonlinear_arith)
        requires
            u * len == dk - upsilon,
    ;
    let t1 = dk * tau;
    let t2 = upsilon * sq;
    let t3 = us * lead;
    assert(y * z == (d * t) * z - us * z) by (nonlinear_arith)
        requires
            y == d * t - us,
    ;
    assert(y * z == -t1 + t2 - t3);
    // the sizes
    assert(z > 0 && km > 0) by (nonlinear_arith)
        requires
            z == km * s,
            km == k * mm,
            k >= 1,
            mm >= 1,
            s > 0,
    ;
    lemma_product_bound(k, d, k, mm);
    lemma_product_bound(k * d, s, km, s);
    assert(-z <= dk <= z);
    lemma_product_bound(dk, tau, z, mm);
    assert(-(z * mm) <= t1 <= z * mm);
    lemma_product_bound(sd, q, a, s);
    lemma_product_bound(upsilon, sq, len, a * s);
    assert(len * (a * s) <= 2 * (z * a)) by (nonlinear_arith)
        requires
            0 < len <= 2 * km,
            z == km * s,
            a >= 0,
            s > 0,
    ;
    assert(-(2 * (z * a)) <= t2 <= 2 * (z * a));
    lemma_product_bound(u, sd, s, a);
    lemma_product_bound(us, lead, s * a, len);
    assert((s * a) * len <= 2 * (z * a)) by (nonlinear_arith)
        requires
            0 < len <= 2 * km,
            z == km * s,
            a >= 0,
            s > 0,
    ;
    assert(-(2 * (z * a)) <= t3 <= 2 * (z * a));
    let cap = mm + 4 * a;
    assert(z * cap == z * mm + 4 * (z * a)) by (nonlinear_arith)
        requires
            cap == mm + 4 * a,
    ;
    assert(-(z * cap) <= y * z <= z * cap);
    assert(-cap <= y <= cap) by (nonlinear_arith)
        requires
            -(z * cap) <= y * z <= z * cap,
            z > 0,
    ;
}

/// The sum of three squares that have moved by at most `627 m^2 / SCALE`
/// each, against a number from which the sum was at most `100 m^2 / SCALE`.
proof fn lemma_sum_of_moved(v: (int, int, int), w: (int, int, int), rr: int, m: int)
    requires
        -(627 * (m * m)) <= (w.0 * w.0 - v.0 * v.0) * SCALE <= 627 * (m * m),
        -(627 * (m * m)) <= (w.1 * w.1 - v.1 * v.1) * SCALE <= 627 * (m * m),
        -(627 * (m * m)) <= (w.2 * w.2 - v.2 * v.2) * SCALE <= 627 * (m * m),
        -100 * (m * m) <= (v.0 * v.0 + v.1 * v.1 + v.2 * v.2 - rr) * SCALE <= 100 * (m * m),
    ensures
        -2000 * (m * m) <= (w.0 * w.0 + w.1 * w.1 + w.2 * w.2 - rr) * SCALE <= 2000 * (m * m),
{
    let a = w.0 * w.0 - v.0 * v.0;
    let b = w.1 * w.1 - v.1 * v.1;
    let c = w.2 * w.2 - v.2 * v.2;
    let e = v.0 * v.0 + v.1 * v.1 + v.2 * v.2 - rr;
    let total = w.0 * w.0 + w.1 * w.1 + w.2 * w.2 - rr;
    let sa = a * SCALE;
    let sb = b * SCALE;
    let sc = c * SCALE;
    let se = e * SCALE;
    let st = total * SCALE;
    let mm = m * m;
    assert(total == a + b + c + e);
    assert(st == sa + sb + sc + se) by (nonlinear_arith)
        requires
            total == a + b + c + e,
            sa == a * SCALE,
            sb == b * SCALE,
            sc == c * SCALE,
            se == e * SCALE,
            st == total * SCALE,
    ;
    assert(-(627 * mm) <= sa <= 627 * mm);
    assert(-(627 * mm) <= sb <= 627 * mm);
    assert(-(627 * mm) <= sc <= 627 * mm);
    assert(-100 * mm <= se <= 100 * mm);
    assert(mm >= 0) by (nonlinear_arith)
        requires
            mm == m * m,
    ;
    assert(-2000 * mm <= st <= 2000 * mm);
}

/// The parameter against the distance, component by component: for a
/// direction within `m` and a distance within `4 m` whose parameter is short
/// of the largest number, a component of the direction times the parameter
/// differs from the matching component of the unit vector times the distance
/// by at most `17 m`.
proof fn lemma_parameter_steps(d: Vec3, distance: Fixed, m: int)
    requires
        d.wf(),
        max_magnitude(d) != 0,
        d.is_within(m),
        -4 * m <= distance@ <= 4 * m,
        -LIMIT < parameter_at(distance, d)@ < LIMIT,
    ensures
        ({
            let t = parameter_at(distance, d)@;
            let unit = d.normalize_spec();
            &&& -(17 * m) <= d.x@ * t - unit.x@ * distance@ <= 17 * m
            &&& -(17 * m) <= d.y@ * t - unit.y@ * distance@ <= 17 * m
            &&& -(17 * m) <= d.z@ * t - unit.z@ * distance@ <= 17 * m
        }),
{
    let s = SCALE as int;
    let unit = d.normalize_spec();
    let t = parameter_at(distance, d);
    d.lemma_normalize_bounded();
    d.lemma_stretched();
    let k = stretch(d);
    let len = stretched_length(d);
    let mm = max_magnitude(d);
    let km = k * mm;
    let sd = distance@;
    let (dx, dy, dz) = (d.x@, d.y@, d.z@);
    let (ux, uy, uz) = (unit.x@, unit.y@, unit.z@);
    // the stretched length is at most twice the largest stretched component
    lemma_product_bound(k, dx, k, mm);
    lemma_product_bound(k, dy, k, mm);
    lemma_product_bound(k, dz, k, mm);
    lemma_product_bound(k * dx, k * dx, km, km);
    lemma_product_bound(k * dy, k * dy, km, km);
    lemma_product_bound(k * dz, k * dz, km, km);
    assert(len <= 2 * km) by (nonlinear_arith)
        requires
            len * len <= 3 * (km * km),
            len >= 0,
            km >= 0,
    ;
    // the unit vector, component by component
    assert(ux == trunc_div((k * dx) * s, len) && uy == trunc_div((k * dy) * s, len) && uz
        == trunc_div((k * dz) * s, len));
    lemma_trunc_div_remainder((k * dx) * s, len);
    lemma_trunc_div_remainder((k * dy) * s, len);
    lemma_trunc_div_remainder((k * dz) * s, len);
    let q = magnitude(leading_component(unit, d)@);
    let lead_d = leading_component(d, d)@;
    assert(magnitude(lead_d) == mm);
    lemma_leading_quotient((k * lead_d) * s, len);
    assert(magnitude((k * lead_d) * s) == km * s) by (nonlinear_arith)
        requires
            magnitude(lead_d) == mm,
            km == k * mm,
            k >= 1,
            s > 0,
            mm >= 0,
    ;
    let lead = km * s - q * len;
    // the parameter
    assert(t@ == trunc_div(sd * q, mm));
    lemma_trunc_div_remainder(sd * q, mm);
    let tau = sd * q - t@ * mm;
    lemma_parameter_error(s, dx, ux, k, len, (k * dx) * s - ux * len, q, mm, lead, sd, t@, tau);
    lemma_parameter_error(s, dy, uy, k, len, (k * dy) * s - uy * len, q, mm, lead, sd, t@, tau);
    lemma_parameter_error(s, dz, uz, k, len, (k * dz) * s - uz * len, q, mm, lead, sd, t@, tau);
}

/// The magnitude of a quotient rounded toward zero is the quotient of the
/// magnitudes, rounded down.
proof fn lemma_leading_quotient(n: int, len: int)
    requires
        len > 0,
    ensures
        0 <= magnitude(n) - magnitude(trunc_div(n, len)) * len < len,
{
    let a = magnitude(n);
    vstd::arithmetic::div_mod::lemma_fundamental_div_mod(a, len);
    vstd::arithmetic::div_mod::lemma_mod_bound(a, len);
    vstd::arithmetic::div_mod::lemma_div_pos_is_pos(a, len);
    assert((a / len) * len == len * (a / len)) by (nonlinear_arith);
}

/// A step along the ray against the same step along the unit ray: where
/// `d t` differs from `u sd` by at most `17 m`, the rounded steps differ by
/// at most `19 m / SCALE`, and the step along the ray keeps within `5 m`.
proof fn lemma_step(d: int, t: int, u: int, sd: int, m: int)
    requires
        m >= SCALE,
        -SCALE <= u <= SCALE,
        -4 * m <= sd <= 4 * m,
        -(17 * m) <= d * t - u * sd <= 17 * m,
    ensures
        -(5 * m) <= trunc_div(d * t, SCALE as int) <= 5 * m,
        -(19 * m) <= (trunc_div(d * t, SCALE as int) - trunc_div(u * sd, SCALE as int)) * SCALE
            <= 19 * m,
{
    let s = SCALE as int;
    let g = trunc_div(d * t, s);
    let n = trunc_div(u * sd, s);
    lemma_trunc_div_remainder(d * t, s);
    lemma_trunc_div_remainder(u * sd, s);
    lemma_product_bound(u, sd, s, 4 * m);
    let dt = d * t;
    let us = u * sd;
    assert((g - n) * s == g * s - n * s) by (nonlinear_arith);
    assert(-(5 * m) <= g <= 5 * m) by (nonlinear_arith)
        requires
            -s < dt - g * s < s,
            -(s * (4 * m)) - 17 * m <= dt <= s * (4 * m) + 17 * m,
            s == 1_000_000_000,
            m >= s,
    ;
}

/// The square of a component that has moved: for `v` within `7 m` and `w`
/// with `(w - v) SCALE` within `19 m`, the squares differ, times `SCALE`, by
/// at most `627 m^2`.
#[verifier::rlimit(60)]
proof fn lemma_moved_square(v: int, w: int, m: int)
    requires
        m >= SCALE,
        -(7 * m) <= v <= 7 * m,
        -(19 * m) <= (w - v) * SCALE <= 19 * m,
    ensures
        -(627 * (m * m)) <= (w * w - v * v) * SCALE <= 627 * (m * m),
{
    let s = SCALE as int;
    let e = w - v;
    let es = e * s;
    assert(-(19 * m) <= e <= 19 * m) by (nonlinear_arith)
        requires
            -(19 * m) <= e * s <= 19 * m,
            s == 1_000_000_000,
            m >= 0,
    ;
    let f = 2 * v + e;
    assert((w * w - v * v) * s == es * f) by (nonlinear_arith)
        requires
            e == w - v,
            es == e * s,
            f == 2 * v + e,
    ;
    lemma_product_bound(es, f, 19 * m, 33 * m);
    assert((19 * m) * (33 * m) == 627 * (m * m)) by (nonlinear_arith);
}

/// The component of `v` on the axis along which `direction` is largest in
/// magnitude.
pub open spec fn leading_component(v: Vec3, direction: Vec3) -> Fixed {
    let a = magnitude(direction.x@);
    let b = magnitude(direction.y@);
    let c = magnitude(direction.z@);
    if a >= b && a >= c {
        v.x
    } else if b >= c {
        v.y
    } else {
        v.z
    }
}

/// The parameter at which a ray along `direction` has gone the distance
/// `distance`: the distance divided by the length of the direction. The
/// length is taken as the ratio of the direction to its unit vector on the
/// axis along which the direction is largest, which keeps the digits of a
/// short direction.
pub open spec fn parameter_at(distance: Fixed, direction: Vec3) -> Fixed {
    Fixed::of(
        clamp(
            trunc_div(
                distance@ * magnitude(
                    leading_component(direction.normalize_spec(), direction)@,
                ),
                magnitude(leading_component(direction, direction)@),
            ),
        ),
    )
}

/// The smaller parameter at which the line of the ray `r` meets the sphere.
pub open spec fn near_parameter(center: Point3, radius: Fixed, r: Ray) -> Fixed {
    parameter_at(near_root(center, radius, r), r.direction)
}

/// The larger parameter at which the line of the ray `r` meets the sphere.
pub open spec fn far_parameter(center: Point3, radius: Fixed, r: Ray) -> Fixed {
    parameter_at(far_root(center, radius, r), r.direction)
}

/// Whether the line of the ray meets the sphere at all: the ray has a
/// direction, and the line passes the centre no farther off than the radius.
pub open spec fn meets(center: Point3, radius: Fixed, r: Ray) -> bool {
    max_magnitude(r.direction) != 0 && raw_discriminant(center, radius, r) >= 0
}

/// A longer distance is reached at a later parameter.
pub proof fn lemma_parameter_monotone(nearer: Fixed, farther: Fixed, direction: Vec3)
    requires
        nearer@ <= farther@,
        max_magnitude(direction) != 0,
    ensures
        parameter_at(nearer, direction)@ <= parameter_at(farther, direction)@,
{
    let q = magnitude(leading_component(direction.normalize_spec(), direction)@);
    let d = magnitude(leading_component(direction, direction)@);
    assert(d == max_magnitude(direction));
    assert(nearer@ * q <= farther@ * q) by (nonlinear_arith)
        requires
            nearer@ <= farther@,
            q >= 0,
    ;
    lemma_trunc_div_monotone(nearer@ * q, farther@ * q, d);
}

/// The parameter at which a ray along `direction`, with the unit vector
/// `unit`, has gone the distance `distance`.
fn parameter(distance: Fixed, unit: Vec3, direction: Vec3) -> (t: Fixed)
    requires
        unit == direction.normalize_spec(),
        max_magnitude(direction) != 0,
    ensures
        t == parameter_at(distance, direction),
{
    proof {
        use_type_invariant(direction.x);
        use_type_invariant(direction.y);
        use_type_invariant(direction.z);
        use_type_invariant(unit.x);
        use_type_invariant(unit.y);
        use_type_invariant(unit.z);
    }
    let a = direction.x.abs();
    let b = direction.y.abs();
    let c = direction.z.abs();
    let (of_unit, of_direction) = if a.raw() >= b.raw() && a.raw() >= c.raw() {
        (unit.x.abs(), a)
    } else if b.raw() >= c.raw() {
        (unit.y.abs(), b)
    } else {
        (unit.z.abs(), c)
    };
    let numerator = distance.raw();
    let factor = of_unit.raw();
    let divisor = of_direction.raw();
    proof {
        lemma_product_bound(numerator as int, factor as int, LIMIT as int, LIMIT as int);
    }
    let wide: i128 = (numerator as i128) * (factor as i128);
    saturate(div_toward_zero(wide, divisor as i128))
}

/// Whether a vector has no direction: every component is zero.
fn has_no_direction(v: Vec3) -> (b: bool)
    ensures
        b == (max_magnitude(v) == 0),
{
    v.x.is_zero() && v.y.is_zero() && v.z.is_zero()
}

/// The two distances at which the line of the ray meets the sphere, the
/// smaller first, where it meets it at all.
fn solve(center: &Point3, radius: Fixed, r: &Ray, unit: Vec3) -> (res: Option<(Fixed, Fixed)>)
    requires
        unit == r.direction.normalize_spec(),
        max_magnitude(r.direction) != 0,
    ensures
        res == if meets(*center, radius, *r) {
            Some((near_root(*center, radius, *r), far_root(*center, radius, *r)))
        } else {
            None
        },
{
    let oc = r.origin().sub(*center);
    let half_b = oc.dot(unit);
    let perp = oc.sub(unit.scale(half_b));
    let across = wide_dot(perp, perp);
    let reach = radius.raw();
    proof {
        lemma_product_bound(reach as int, reach as int, LIMIT as int, LIMIT as int);
        assert(LIMIT * LIMIT == 16_000_000_000_000_000_000_000_000_000_000_000_000)
            by (nonlinear_arith);
    }
    let discriminant: i128 = (reach as i128) * (reach as i128) - across;
    if discriminant < 0 {
        return None;
    }
    let root = floor_sqrt_u128(discriminant as u128);
    proof {
        lemma_floor_sqrt_unique(discriminant as int, root as int);
    }
    let half_chord = saturate(root as i128);
    Some((half_b.neg().sub(half_chord), half_b.neg().add(half_chord)))
}

/// The parameter at which the line of the ray `r` first meets the sphere
/// about `center` with radius `radius`, where it meets it at all: the smaller
/// solution of the quadratic, whether or not it lies ahead of the origin.
pub fn hit_sphere(center: &Point3, radius: Fixed, r: &Ray) -> (res: Option<Fixed>)
    ensures
        res == if meets(*center, radius, *r) {
            Some(near_parameter(*center, radius, *r))
        } else {
            None
        },
{
    if has_no_direction(r.direction()) {
        return None;
    }
    let unit = r.direction().normalize();
    match solve(center, radius, r, unit) {
        Some((near, _)) => Some(parameter(near, unit, r.direction())),
        None => None,
    }
}

/// A sphere of one material.
#[derive(Clone, Copy, Debug, PartialEq, Eq, Structural)]
pub struct Sphere {
    /// The centre.
    pub center: Point3,
    /// The radius; it is taken as it is given, whatever its sign.
    pub radius: Fixed,
    /// The material of the surface.
    pub material: AnyMaterial,
}

impl Sphere {
    /// Whether the line of the ray meets the sphere at all. A ray without
    /// direction meets nothing.
    pub open spec fn meets(&self, r: Ray) -> bool {
        meets(self.center, self.radius, r)
    }

    /// The smaller parameter at which the line of the ray meets the sphere.
    pub open spec fn near_parameter(&self, r: Ray) -> Fixed {
        near_parameter(self.center, self.radius, r)
    }

    /// The larger parameter at which the line of the ray meets the sphere.
    pub open spec fn far_parameter(&self, r: Ray) -> Fixed {
        far_parameter(self.center, self.radius, r)
    }

    /// The parameter of the hit: the smaller solution where it lies in the
    /// window, else the larger one where that does.
    pub open spec fn root_spec(&self, r: Ray, t_min: Fixed, t_max: Fixed) -> Option<Fixed> {
        if !self.meets(r) {
            None
        } else if in_window(self.near_parameter(r), t_min, t_max) {
            Some(self.near_parameter(r))
        } else if in_window(self.far_parameter(r), t_min, t_max) {
            Some(self.far_parameter(r))
        } else {
            None
        }
    }

    /// The unit normal that points away from the centre at the point `p`:
    /// the unit vector of `p - center`, turned about where the radius is
    /// negative.
    pub open spec fn outward_normal(&self, p: Point3) -> Vec3 {
        let away = p.sub_spec(self.center).normalize_spec();
        if self.radius@ < 0 {
            away.neg_spec()
        } else {
            away
        }
    }

    /// The record of the hit at parameter `t` of the ray.
    pub open spec fn record_at(&self, r: Ray, t: Fixed) -> HitRecord {
        let p = r.at_spec(t);
        let outward = self.outward_normal(p);
        HitRecord::new_spec(p, outward, t, self.material).set_face_normal_spec(r, outward)
    }

    /// The smaller solution does not exceed the larger one.
    pub proof fn lemma_roots_ordered(&self, r: Ray)
        requires
            self.meets(r),
        ensures
            self.near_parameter(r)@ <= self.far_parameter(r)@,
    {
        lemma_floor_sqrt_exists(raw_discriminant(self.center, self.radius, r));
        let minus_half_b = half_b(self.center, r).neg_spec();
        minus_half_b.lemma_sub_le_add(half_chord(self.center, self.radius, r));
        lemma_parameter_monotone(
            near_root(self.center, self.radius, r),
            far_root(self.center, self.radius, r),
            r.direction,
        );
    }

    /// The point of a hit lies on the sphere. For a ray with a direction
    /// whose line meets the sphere, with the origin, the centre, their offset,
    /// the direction and the radius within `bound`, between one and a
    /// million, and a parameter short of the largest number: the point at
    /// either solution has a squared distance from the centre that differs
    /// from the squared radius by at most `2000 bound^2 / SCALE` squared raw
    /// units. For coordinates up to one that is two millionths.
    pub proof fn lemma_hit_on_sphere(&self, r: Ray, far: bool, bound: int)
        requires
            self.meets(r),
            r.direction.wf(),
            r.direction.is_within(bound),
            r.origin.is_within(bound),
            self.center.is_within(bound),
            offset(self.center, r).is_within(bound),
            -bound <= self.radius@ <= bound,
            SCALE <= bound <= ORDINARY_RANGE,
            ({
                let t = if far {
                    self.far_parameter(r)
                } else {
                    self.near_parameter(r)
                };
                -LIMIT < t@ < LIMIT
            }),
        ensures
            ({
                let t = if far {
                    self.far_parameter(r)
                } else {
                    self.near_parameter(r)
                };
                let w = r.at_spec(t).sub_spec(self.center);
                -2000 * (bound * bound) <= (raw_dot(w, w) - self.radius@ * self.radius@) * SCALE
                    <= 2000 * (bound * bound)
            }),
    {
        let s = SCALE as int;
        let m = bound;
        let d = r.direction;
        let unit = d.normalize_spec();
        let distance = if far {
            far_root(self.center, self.radius, r)
        } else {
            near_root(self.center, self.radius, r)
        };
        let t = parameter_at(distance, d);
        lemma_root_on_sphere(self.center, self.radius, r, bound, far);
        d.lemma_normalize_bounded();
        lemma_parameter_steps(d, distance, bound);
        let sd = distance@;
        let (dx, dy, dz) = (d.x@, d.y@, d.z@);
        let (ux, uy, uz) = (unit.x@, unit.y@, unit.z@);
        let oc = offset(self.center, r);
        let reached = reach(self.center, r, distance);
        let w = r.at_spec(t).sub_spec(self.center);
        lemma_along(ux, sd, 2 * m);
        lemma_along(uy, sd, 2 * m);
        lemma_along(uz, sd, 2 * m);
        lemma_step(dx, t@, ux, sd, m);
        lemma_step(dy, t@, uy, sd, m);
        lemma_step(dz, t@, uz, sd, m);
        let gx = trunc_div(dx * t@, s);
        let gy = trunc_div(dy * t@, s);
        let gz = trunc_div(dz * t@, s);
        let nx = trunc_div(ux * sd, s);
        let ny = trunc_div(uy * sd, s);
        let nz = trunc_div(uz * sd, s);
        assert(reached.x@ == oc.x@ + nx && reached.y@ == oc.y@ + ny && reached.z@ == oc.z@ + nz);
        assert(r.at_spec(t).x@ == r.origin.x@ + gx);
        assert(r.at_spec(t).y@ == r.origin.y@ + gy);
        assert(r.at_spec(t).z@ == r.origin.z@ + gz);
        assert(oc.x@ == r.origin.x@ - self.center.x@ && oc.y@ == r.origin.y@ - self.center.y@
            && oc.z@ == r.origin.z@ - self.center.z@);
        assert(w.x@ == oc.x@ + gx && w.y@ == oc.y@ + gy && w.z@ == oc.z@ + gz);
        lemma_moved_square(reached.x@, w.x@, m);
        lemma_moved_square(reached.y@, w.y@, m);
        lemma_moved_square(reached.z@, w.z@, m);
        lemma_sum_of_moved(
            (reached.x@, reached.y@, reached.z@),
            (w.x@, w.y@, w.z@),
            self.radius@ * self.radius@,
            m,
        );
    }

    /// The normal of a hit has length one, unless the point of the hit is the
    /// centre itself: its exact squared length falls short of one by at most
    /// six raw units and exceeds it by at most two squared raw units.
    pub proof fn lemma_unit_normal(&self, r: Ray, t: Fixed)
        requires
            max_magnitude(r.at_spec(t).sub_spec(self.center)) != 0,
        ensures
            ({
                let n = self.record_at(r, t).normal;
                SCALE * SCALE - 6 * SCALE <= raw_dot(n, n) <= SCALE * SCALE + 2
            }),
    {
        let w = r.at_spec(t).sub_spec(self.center);
        let away = w.normalize_spec();
        let n = self.record_at(r, t).normal;
        w.lemma_normalize_unit();
        w.lemma_normalize_bounded();
        let x = away.x@;
        let y = away.y@;
        let z = away.z@;
        assert(away.neg_spec().x@ == -x && away.neg_spec().y@ == -y && away.neg_spec().z@ == -z);
        assert(n.x@ == x && n.y@ == y && n.z@ == z || n.x@ == -x && n.y@ == -y && n.z@ == -z);
        assert(raw_dot(n, n) == raw_dot(away, away)) by (nonlinear_arith)
            requires
                raw_dot(n, n) == n.x@ * n.x@ + n.y@ * n.y@ + n.z@ * n.z@,
                raw_dot(away, away) == x * x + y * y + z * z,
                n.x@ == x && n.y@ == y && n.z@ == z || n.x@ == -x && n.y@ == -y && n.z@ == -z,
        ;
    }

    /// A sphere of a material that never amplifies reports no other.
    pub proof fn lemma_never_amplifies(&self)
        requires
            self.material.never_amplifies(),
        ensures
            never_amplifies(self),
    {
    }

    /// A sphere about `center` with radius `r`. A negative radius gives a
    /// sphere whose normals point inward.
    pub fn new(center: Point3, r: Fixed, material: AnyMaterial) -> (s: Sphere)
        ensures
            s.center == center,
            s.radius == r,
            s.material == material,
    {
        Sphere { center, radius: r, material }
    }
}

impl Hittable for Sphere {
    open spec fn hit_spec(&self, r: Ray, t_min: Fixed, t_max: Fixed) -> Option<HitRecord> {
        match self.root_spec(r, t_min, t_max) {
            Some(t) => Some(self.record_at(r, t)),
            None => None,
        }
    }

    proof fn lemma_hit_in_window(&self, r: Ray, t_min: Fixed, t_max: Fixed) {
        if let Some(t) = self.root_spec(r, t_min, t_max) {
            let p = r.at_spec(t);
            let outward = self.outward_normal(p);
            p.sub_spec(self.center).lemma_normalize_bounded();
            HitRecord::new_spec(p, outward, t, self.material).lemma_normal_opposes_ray(
                r,
                outward,
            );
        }
    }

    proof fn lemma_hit_narrowed(&self, r: Ray, t_min: Fixed, t_max: Fixed, bound: Fixed) {
        if self.meets(r) {
            self.lemma_roots_ordered(r);
        }
    }

    /// The first point of the ray on the sphere whose parameter lies strictly
    /// between `t_min` and `t_max`. The normal of the record has length one
    /// and points against the ray; `lemma_hit_on_sphere` bounds the distance
    /// of the point from the sphere.
    fn hit(&self, r: &Ray, t_min: Fixed, t_max: Fixed) -> (res: Option<HitRecord>)
        ensures
            res matches Some(h) ==> in_window(h.t, t_min, t_max) && h.p == r.at_spec(h.t)
                && h.material == self.material && r.direction.dot_spec(h.normal)@ <= 0,
            res matches Some(h) ==> (max_magnitude(h.p.sub_spec(self.center)) != 0 ==> SCALE
                * SCALE - 6 * SCALE <= raw_dot(h.normal, h.normal) <= SCALE * SCALE + 2),
            max_magnitude(r.direction) == 0 ==> res is None,
    {
        proof {
            if let Some(t) = self.root_spec(*r, t_min, t_max) {
                if max_magnitude(r.at_spec(t).sub_spec(self.center)) != 0 {
                    self.lemma_unit_normal(*r, t);
                }
            }
        }
        if has_no_direction(r.direction()) {
            return None;
        }
        let unit = r.direction().normalize();
        let (near, far) = match solve(&self.center, self.radius, r, unit) {
            Some(roots) => roots,
            None => {
                return None;
            },
        };
        let mut root = parameter(near, unit, r.direction());
        if root.le(t_min) || t_max.le(root) {
            root = parameter(far, unit, r.direction());
            if root.le(t_min) || t_max.le(root) {
                return None;
            }
        }
        let t = root;
        let p = r.at(t);
        let away = p.sub(self.center).normalize();
        let outward_normal = if self.radius.is_negative() {
            away.neg()
        } else {
            away
        };

        let mut rec = HitRecord::new(&p, &outward_normal, t, &self.material);
        rec.set_face_normal(r, &outward_normal);
        Some(rec)
    }
}

} // verus!
