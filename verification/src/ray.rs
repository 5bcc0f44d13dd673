//! Rays, and the mirror and Snell directions at a surface.

use crate::fixed::{
    lemma_floor_sqrt_exists, lemma_product_bound, lemma_square_of_three,
    lemma_trunc_div_remainder, trunc_div, Fixed, SCALE,
};
use crate::vec3::{raw_dot, Point3, Vec3};
use vstd::prelude::*;

verus! {

broadcast use Fixed::lemma_of;

/// A half-line: the points `origin + t * direction`.
#[derive(Clone, Copy, Debug, PartialEq, Eq, Structural)]
pub struct Ray {
    /// The point where the ray starts.
    pub origin: Point3,
    /// The direction of the ray; it need not have length one.
    pub direction: Vec3,
}

impl Ray {
    /// The point `origin + t * direction`.
    pub open spec fn at_spec(self, t: Fixed) -> Point3 {
        self.origin.add_spec(self.direction.scale_spec(t))
    }

    /// The ray from `origin` along `direction`, which need not have length one.
    pub fn new(origin: Point3, direction: Vec3) -> (r: Ray)
        ensures
            r == (Ray { origin, direction }),
    {
        Ray { origin, direction }
    }

    /// The point where the ray starts.
    pub fn origin(&self) -> (p: Point3)
        ensures
            p == self.origin,
    {
        self.origin
    }

    /// The direction of the ray.
    pub fn direction(&self) -> (d: Vec3)
        ensures
            d == self.direction,
    {
        self.direction
    }

    /// The point of the ray at parameter `t`.
    pub fn at(&self, t: Fixed) -> (p: Point3)
        ensures
            p == self.at_spec(t),
    {
        self.origin.add(self.direction.scale(t))
    }
}

/// `v - 2 * dot(v, n) * n`.
pub open spec fn reflect_spec(v: Vec3, n: Vec3) -> Vec3 {
    v.sub_spec(n.scale_spec(Fixed::from_int_spec(2).mul_spec(v.dot_spec(n))))
}

/// The cosine of the angle of incidence, capped at one: `min(dot(-uv, n), 1)`.
pub open spec fn incidence_cosine(uv: Vec3, n: Vec3) -> Fixed {
    uv.neg_spec().dot_spec(n).min_spec(Fixed::one_spec())
}

/// The part of the refracted direction that lies in the surface.
pub open spec fn refract_perp(uv: Vec3, n: Vec3, eta_ratio: Fixed) -> Vec3 {
    uv.add_spec(n.scale_spec(incidence_cosine(uv, n))).scale_spec(eta_ratio)
}

/// The part of the refracted direction along the normal:
/// `-sqrt(1 - |perp|^2) * n`, where the root of a negative number is zero.
pub open spec fn refract_parallel(perp: Vec3, n: Vec3) -> Vec3 {
    n.scale_spec(Fixed::one_spec().sub_spec(perp.length_squared_spec()).sqrt_spec().neg_spec())
}

/// The refracted direction: the sum of its two parts.
pub open spec fn refract_spec(uv: Vec3, n: Vec3, eta_ratio: Fixed) -> Vec3 {
    let perp = refract_perp(uv, n, eta_ratio);
    perp.add_spec(refract_parallel(perp, n))
}

/// One component of the change that a reflection makes to a squared length:
/// for `q s == n k - g`, the change `((v - q)^2 - v^2) s^2` in terms of the
/// products `sk = s k`, `kk = k k`, `vn = v n`, `vg = v g`, `nn = n n`,
/// `ng = n g` and `gg = g g`.
#[verifier::rlimit(60)]
proof fn lemma_reflect_term(v: int, n: int, g: int, k: int, q: int, s: int)
    requires
        q * s == n * k - g,
    ensures
        ((v - q) * (v - q) - v * v) * (s * s) == -2 * ((s * k) * (v * n)) + 2 * (s * (v * g)) + (k
            * k) * (n * n) - 2 * (k * (n * g)) + g * g,
{
    let x = q * s;
    let y = n * k;
    let w = v * s;
    assert(((v - q) * (v - q) - v * v) * (s * s) == x * x - 2 * (w * x)) by (nonlinear_arith)
        requires
            x == q * s,
            w == v * s,
    ;
    assert(x * x == y * y - 2 * (y * g) + g * g) by (nonlinear_arith)
        requires
            x == y - g,
    ;
    assert(w * x == w * y - w * g) by (nonlinear_arith)
        requires
            x == y - g,
    ;
    assert(y * y == (k * k) * (n * n)) by (nonlinear_arith)
        requires
            y == n * k,
    ;
    assert(y * g == k * (n * g)) by (nonlinear_arith)
        requires
            y == n * k,
    ;
    assert(w * y == (s * k) * (v * n)) by (nonlinear_arith)
        requires
            y == n * k,
            w == v * s,
    ;
    assert(w * g == s * (v * g)) by (nonlinear_arith)
        requires
            w == v * s,
    ;
}

/// The product of three bounded numbers is bounded by the product of the
/// bounds.
proof fn lemma_triple_bound(a: int, b: int, c: int, la: int, lb: int, lc: int)
    requires
        -la <= a <= la,
        -lb <= b <= lb,
        -lc <= c <= lc,
    ensures
        -(la * lb * lc) <= a * b * c <= la * lb * lc,
{
    let ab = a * b;
    let lab = la * lb;
    assert(-lab <= ab <= lab) by (nonlinear_arith)
        requires
            -la <= a <= la,
            -lb <= b <= lb,
            ab == a * b,
            lab == la * lb,
    ;
    assert(-(lab * lc) <= ab * c <= lab * lc) by (nonlinear_arith)
        requires
            -lab <= ab <= lab,
            -lc <= c <= lc,
    ;
}

/// A component between minus one and one, times a number of at most seven
/// in magnitude, keeps within seven; the rounding changes it by less than one
/// raw unit.
proof fn lemma_scaled_component(c: int, k: int)
    requires
        -SCALE <= c <= SCALE,
        -7 * SCALE <= k <= 7 * SCALE,
    ensures
        -7 * SCALE <= trunc_div(c * k, SCALE as int) <= 7 * SCALE,
        -SCALE < c * k - trunc_div(c * k, SCALE as int) * SCALE < SCALE,
{
    let s = SCALE as int;
    lemma_trunc_div_remainder(c * k, s);
    let q = trunc_div(c * k, s);
    let ck = c * k;
    assert(-(s * (7 * s)) <= ck <= s * (7 * s)) by (nonlinear_arith)
        requires
            -s <= c <= s,
            -(7 * s) <= k <= 7 * s,
            ck == c * k,
    ;
    assert(-(7 * s) <= q <= 7 * s) by (nonlinear_arith)
        requires
            -s < ck - q * s < s,
            -(s * (7 * s)) <= ck <= s * (7 * s),
            s > 0,
    ;
}

/// A reflection keeps the length: for a direction `v` with components
/// between minus one and one and a normal `n` of length one, the exact
/// squared length of the reflected direction differs from that of `v` by at
/// most 400 raw units.
#[verifier::rlimit(60)]
pub proof fn lemma_reflect_length(v: Vec3, n: Vec3)
    requires
        v.is_within(SCALE as int),
        n.is_within(SCALE as int),
        SCALE * SCALE - 6 * SCALE <= raw_dot(n, n) <= SCALE * SCALE + 2,
    ensures
        raw_dot(v, v) - 400 * SCALE <= raw_dot(reflect_spec(v, n), reflect_spec(v, n))
            <= raw_dot(v, v) + 400 * SCALE,
{
    let s = SCALE as int;
    let ss = s * s;
    let sss = ss * s;
    assert(ss == 1_000_000_000_000_000_000 && sss == 1_000_000_000_000_000_000_000_000_000)
        by (nonlinear_arith)
        requires
            s == 1_000_000_000,
            ss == s * s,
            sss == ss * s,
    ;
    let a1 = v.x@ * n.x@;
    let a2 = v.y@ * n.y@;
    let a3 = v.z@ * n.z@;
    lemma_triple_bound(v.x@, n.x@, 1, s, s, 1);
    lemma_triple_bound(v.y@, n.y@, 1, s, s, 1);
    lemma_triple_bound(v.z@, n.z@, 1, s, s, 1);
    let p = raw_dot(v, n);
    assert(p == a1 + a2 + a3);
    assert(-3 * ss <= p <= 3 * ss);
    // the dot product, and twice it
    let h = trunc_div(p, s);
    lemma_trunc_div_remainder(p, s);
    let rho = p - h * s;
    assert(-3 * s - 1 <= h <= 3 * s + 1) by (nonlinear_arith)
        requires
            -s < p - h * s < s,
            -3 * (s * s) <= p <= 3 * (s * s),
            s > 0,
    ;
    assert(v.dot_spec(n)@ == h);
    let k = 2 * h;
    let twice = Fixed::from_int_spec(2).mul_spec(v.dot_spec(n));
    assert(twice@ == k) by {
        assert(Fixed::from_int_spec(2)@ == 2 * s);
        assert(2 * s * h == k * s) by (nonlinear_arith)
            requires
                k == 2 * h,
        ;
        lemma_trunc_div_remainder(k * s, s);
        let q = trunc_div(k * s, s);
        assert(q == k) by (nonlinear_arith)
            requires
                -s < k * s - q * s < s,
                s > 0,
        ;
    }
    // the three components of the normal times twice the dot product
    lemma_scaled_component(n.x@, k);
    lemma_scaled_component(n.y@, k);
    lemma_scaled_component(n.z@, k);
    let q1 = trunc_div(n.x@ * k, s);
    let q2 = trunc_div(n.y@ * k, s);
    let q3 = trunc_div(n.z@ * k, s);
    let g1 = n.x@ * k - q1 * s;
    let g2 = n.y@ * k - q2 * s;
    let g3 = n.z@ * k - q3 * s;
    let d = reflect_spec(v, n);
    assert(d.x@ == v.x@ - q1 && d.y@ == v.y@ - q2 && d.z@ == v.z@ - q3);
    lemma_reflect_term(v.x@, n.x@, g1, k, q1, s);
    lemma_reflect_term(v.y@, n.y@, g2, k, q2, s);
    lemma_reflect_term(v.z@, n.z@, g3, k, q3, s);
    let x1 = (v.x@ - q1) * (v.x@ - q1) - v.x@ * v.x@;
    let x2 = (v.y@ - q2) * (v.y@ - q2) - v.y@ * v.y@;
    let x3 = (v.z@ - q3) * (v.z@ - q3) - v.z@ * v.z@;
    let dd = raw_dot(d, d);
    let vv = raw_dot(v, v);
    let nn = raw_dot(n, n);
    assert(dd - vv == x1 + x2 + x3);
    assert((dd - vv) * ss == x1 * ss + x2 * ss + x3 * ss) by (nonlinear_arith)
        requires
            dd - vv == x1 + x2 + x3,
    ;
    let sk = s * k;
    let kk = k * k;
    let b1 = s * (v.x@ * g1);
    let b2 = s * (v.y@ * g2);
    let b3 = s * (v.z@ * g3);
    let c1 = n.x@ * n.x@;
    let c2 = n.y@ * n.y@;
    let c3 = n.z@ * n.z@;
    let e1 = k * (n.x@ * g1);
    let e2 = k * (n.y@ * g2);
    let e3 = k * (n.z@ * g3);
    let f1 = g1 * g1;
    let f2 = g2 * g2;
    let f3 = g3 * g3;
    assert(sk * a1 + sk * a2 + sk * a3 == sk * p) by (nonlinear_arith)
        requires
            p == a1 + a2 + a3,
    ;
    assert(kk * c1 + kk * c2 + kk * c3 == kk * nn) by (nonlinear_arith)
        requires
            nn == c1 + c2 + c3,
    ;
    let err = (dd - vv) * ss;
    assert(err == -2 * (sk * p) + kk * nn + 2 * (b1 + b2 + b3) - 2 * (e1 + e2 + e3) + (f1 + f2
        + f3));
    // twice the dot product cancels against the squared normal
    let delta = nn - ss;
    let t1 = kk * delta;
    let t2 = sk * rho;
    assert(kk * nn == t1 + kk * ss) by (nonlinear_arith)
        requires
            t1 == kk * delta,
            delta == nn - ss,
    ;
    assert(kk * ss == sk * sk) by (nonlinear_arith)
        requires
            kk == k * k,
            ss == s * s,
            sk == s * k,
    ;
    assert(2 * (sk * p) == sk * sk + 2 * t2) by (nonlinear_arith)
        requires
            sk == s * k,
            k == 2 * h,
            rho == p - h * s,
            t2 == sk * rho,
    ;
    assert(err == t1 - 2 * t2 + 2 * (b1 + b2 + b3) - 2 * (e1 + e2 + e3) + (f1 + f2 + f3));
    // the sizes of what is left
    lemma_triple_bound(k, k, delta, 7 * s, 7 * s, 6 * s);
    lemma_triple_bound(s, k, rho, s, 7 * s, s);
    lemma_triple_bound(s, v.x@, g1, s, s, s);
    lemma_triple_bound(s, v.y@, g2, s, s, s);
    lemma_triple_bound(s, v.z@, g3, s, s, s);
    lemma_triple_bound(k, n.x@, g1, 7 * s, s, s);
    lemma_triple_bound(k, n.y@, g2, 7 * s, s, s);
    lemma_triple_bound(k, n.z@, g3, 7 * s, s, s);
    lemma_triple_bound(g1, g1, 1, s, s, 1);
    lemma_triple_bound(g2, g2, 1, s, s, 1);
    lemma_triple_bound(g3, g3, 1, s, s, 1);
    assert((7 * s) * (7 * s) * (6 * s) == 294 * sss && s * (7 * s) * s == 7 * sss && s * s * s
        == sss && (7 * s) * s * s == 7 * sss && s * s * 1 == ss) by (nonlinear_arith)
        requires
            ss == s * s,
            sss == ss * s,
    ;
    assert(k * k * delta == t1 && s * k * rho == t2);
    assert(s * v.x@ * g1 == b1 && s * v.y@ * g2 == b2 && s * v.z@ * g3 == b3) by (nonlinear_arith)
        requires
            b1 == s * (v.x@ * g1),
            b2 == s * (v.y@ * g2),
            b3 == s * (v.z@ * g3),
    ;
    assert(k * n.x@ * g1 == e1 && k * n.y@ * g2 == e2 && k * n.z@ * g3 == e3) by (nonlinear_arith)
        requires
            e1 == k * (n.x@ * g1),
            e2 == k * (n.y@ * g2),
            e3 == k * (n.z@ * g3),
    ;
    assert(-400 * sss <= err <= 400 * sss);
    assert(400 * sss == (400 * s) * ss) by (nonlinear_arith)
        requires
            sss == ss * s,
    ;
    assert(-400 * s <= dd - vv <= 400 * s) by (nonlinear_arith)
        requires
            -((400 * s) * ss) <= (dd - vv) * ss <= (400 * s) * ss,
            ss > 0,
    ;
}

/// The heart of the length of a refracted direction, in whole numbers: `p`
/// is the part in the surface, `n` the normal, `r` the root that scales the
/// part along the normal, `t` what the rounding took from that part, `d` the
/// refracted direction.
#[verifier::rlimit(60)]
proof fn lemma_refract_core(
    s: int,
    r: int,
    ps: int,
    kappa: int,
    sigma: int,
    delta: int,
    pn: int,
    p: (int, int, int),
    n: (int, int, int),
    t: (int, int, int),
    d: (int, int, int),
)
    requires
        s == SCALE,
        0 <= r <= s,
        n.0 * n.0 + n.1 * n.1 + n.2 * n.2 == s * s + delta,
        -6 * s <= delta <= 2,
        ps * s == p.0 * p.0 + p.1 * p.1 + p.2 * p.2 - kappa,
        0 <= kappa < s,
        r * r == (s - ps) * s - sigma,
        0 <= sigma <= 2 * r,
        pn == p.0 * n.0 + p.1 * n.1 + p.2 * n.2,
        -95 * s <= pn <= 95 * s,
        -20 * s <= p.0 <= 20 * s && -20 * s <= p.1 <= 20 * s && -20 * s <= p.2 <= 20 * s,
        -s <= n.0 <= s && -s <= n.1 <= s && -s <= n.2 <= s,
        -s <= t.0 <= s && -s <= t.1 <= s && -s <= t.2 <= s,
        d.0 * s == p.0 * s + n.0 * (-r) - t.0,
        d.1 * s == p.1 * s + n.1 * (-r) - t.1,
        d.2 * s == p.2 * s + n.2 * (-r) - t.2,
    ensures
        -330 * s <= d.0 * d.0 + d.1 * d.1 + d.2 * d.2 - s * s <= 330 * s,
{
    let ss = s * s;
    let sss = ss * s;
    let h = -r;
    let h2 = h * h;
    let sh = s * h;
    assert(h2 == r * r) by (nonlinear_arith)
        requires
            h == -r,
            h2 == h * h,
    ;
    lemma_square_of_three(p.0, n.0, h, t.0, s);
    lemma_square_of_three(p.1, n.1, h, t.1, s);
    lemma_square_of_three(p.2, n.2, h, t.2, s);
    let d0 = d.0 * s;
    let d1 = d.1 * s;
    let d2 = d.2 * s;
    assert(d0 * d0 == (d.0 * d.0) * ss) by (nonlinear_arith)
        requires
            d0 == d.0 * s,
            ss == s * s,
    ;
    assert(d1 * d1 == (d.1 * d.1) * ss) by (nonlinear_arith)
        requires
            d1 == d.1 * s,
            ss == s * s,
    ;
    assert(d2 * d2 == (d.2 * d.2) * ss) by (nonlinear_arith)
        requires
            d2 == d.2 * s,
            ss == s * s,
    ;
    let dd = d.0 * d.0 + d.1 * d.1 + d.2 * d.2;
    assert(dd * ss == (d.0 * d.0) * ss + (d.1 * d.1) * ss + (d.2 * d.2) * ss) by (nonlinear_arith)
        requires
            dd == d.0 * d.0 + d.1 * d.1 + d.2 * d.2,
    ;
    let pp = p.0 * p.0 + p.1 * p.1 + p.2 * p.2;
    let nn = n.0 * n.0 + n.1 * n.1 + n.2 * n.2;
    let tt = t.0 * t.0 + t.1 * t.1 + t.2 * t.2;
    let pt = p.0 * t.0 + p.1 * t.1 + p.2 * t.2;
    let nt = n.0 * t.0 + n.1 * t.1 + n.2 * t.2;
    assert(ss * (p.0 * p.0) + ss * (p.1 * p.1) + ss * (p.2 * p.2) == ss * pp) by (nonlinear_arith)
        requires
            pp == p.0 * p.0 + p.1 * p.1 + p.2 * p.2,
    ;
    assert(h2 * (n.0 * n.0) + h2 * (n.1 * n.1) + h2 * (n.2 * n.2) == h2 * nn) by (nonlinear_arith)
        requires
            nn == n.0 * n.0 + n.1 * n.1 + n.2 * n.2,
    ;
    assert(sh * (p.0 * n.0) + sh * (p.1 * n.1) + sh * (p.2 * n.2) == sh * pn) by (nonlinear_arith)
        requires
            pn == p.0 * n.0 + p.1 * n.1 + p.2 * n.2,
    ;
    assert(s * (p.0 * t.0) + s * (p.1 * t.1) + s * (p.2 * t.2) == s * pt) by (nonlinear_arith)
        requires
            pt == p.0 * t.0 + p.1 * t.1 + p.2 * t.2,
    ;
    assert(h * (n.0 * t.0) + h * (n.1 * t.1) + h * (n.2 * t.2) == h * nt) by (nonlinear_arith)
        requires
            nt == n.0 * t.0 + n.1 * t.1 + n.2 * t.2,
    ;
    assert(dd * ss == ss * pp + h2 * nn + tt + 2 * (sh * pn) - 2 * (s * pt) - 2 * (h * nt));
    let t1 = kappa * ss;
    let t2 = sigma * ss;
    let t3 = h2 * delta;
    let t4 = sh * pn;
    let t5 = s * pt;
    let t6 = h * nt;
    assert(h2 * nn == h2 * ss + t3) by (nonlinear_arith)
        requires
            nn == ss + delta,
            t3 == h2 * delta,
    ;
    assert(ss * pp + h2 * ss == ss * ss + t1 - t2) by (nonlinear_arith)
        requires
            ps * s == pp - kappa,
            h2 == (s - ps) * s - sigma,
            ss == s * s,
            t1 == kappa * ss,
            t2 == sigma * ss,
    ;
    let err = (dd - ss) * ss;
    assert(err == dd * ss - ss * ss) by (nonlinear_arith)
        requires
            err == (dd - ss) * ss,
    ;
    assert(err == t1 - t2 + t3 + tt + 2 * t4 - 2 * t5 - 2 * t6);
    // the sizes
    assert(ss > 0 && sss == s * ss && ss <= sss) by (nonlinear_arith)
        requires
            ss == s * s,
            sss == ss * s,
            s == 1_000_000_000,
    ;
    lemma_product_bound(kappa, ss, s, ss);
    lemma_product_bound(sigma, ss, 2 * s, ss);
    assert((2 * s) * ss == 2 * sss) by (nonlinear_arith)
        requires
            sss == s * ss,
    ;
    lemma_product_bound(h, h, s, s);
    lemma_product_bound(h2, delta, ss, 6 * s);
    assert(ss * (6 * s) == 6 * sss) by (nonlinear_arith)
        requires
            sss == s * ss,
    ;
    lemma_product_bound(t.0, t.0, s, s);
    lemma_product_bound(t.1, t.1, s, s);
    lemma_product_bound(t.2, t.2, s, s);
    assert(-3 * sss <= tt <= 3 * sss);
    lemma_product_bound(s, h, s, s);
    lemma_product_bound(sh, pn, ss, 95 * s);
    assert(ss * (95 * s) == 95 * sss) by (nonlinear_arith)
        requires
            sss == s * ss,
    ;
    lemma_product_bound(p.0, t.0, 20 * s, s);
    lemma_product_bound(p.1, t.1, 20 * s, s);
    lemma_product_bound(p.2, t.2, 20 * s, s);
    assert((20 * s) * s == 20 * ss) by (nonlinear_arith)
        requires
            ss == s * s,
    ;
    assert(-60 * ss <= pt <= 60 * ss);
    lemma_product_bound(s, pt, s, 60 * ss);
    assert(s * (60 * ss) == 60 * sss) by (nonlinear_arith)
        requires
            sss == s * ss,
    ;
    lemma_product_bound(n.0, t.0, s, s);
    lemma_product_bound(n.1, t.1, s, s);
    lemma_product_bound(n.2, t.2, s, s);
    assert(-3 * ss <= nt <= 3 * ss);
    lemma_product_bound(h, nt, s, 3 * ss);
    assert(s * (3 * ss) == 3 * sss) by (nonlinear_arith)
        requires
            sss == s * ss,
    ;
    assert(-330 * sss <= err <= 330 * sss);
    assert(330 * sss == (330 * s) * ss) by (nonlinear_arith)
        requires
            sss == s * ss,
    ;
    assert(-330 * s <= dd - ss <= 330 * s) by (nonlinear_arith)
        requires
            -((330 * s) * ss) <= (dd - ss) * ss <= (330 * s) * ss,
            ss > 0,
    ;
}

/// A component between minus one and one times a factor of at most `4 m`
/// in magnitude, rounded: the result is at most `4 m` in magnitude, and the
/// rounding takes less than one raw unit.
proof fn lemma_scaled(c: int, k: int, lc: int, lk: int)
    requires
        -lc <= c <= lc,
        -lk <= k <= lk,
        lc >= 0,
        lk >= 0,
    ensures
        -(lc * lk) <= c * k <= lc * lk,
        -SCALE < c * k - trunc_div(c * k, SCALE as int) * SCALE < SCALE,
{
    lemma_trunc_div_remainder(c * k, SCALE as int);
    lemma_product_bound(c, k, lc, lk);
}

/// A quotient by the scale of a number within `b` times the scale is within
/// `b`.
proof fn lemma_quotient_within(x: int, b: int)
    requires
        b >= 0,
        -(b * SCALE) <= x <= b * SCALE,
    ensures
        -b <= trunc_div(x, SCALE as int) <= b,
{
    let s = SCALE as int;
    let q = trunc_div(x, s);
    lemma_trunc_div_remainder(x, s);
    assert(-b <= q <= b) by (nonlinear_arith)
        requires
            -s < x - q * s < s,
            -(b * s) <= x <= b * s,
            s > 0,
    ;
}

/// The part of a refracted direction in the surface is nearly at right
/// angles to the normal, in whole numbers.
#[verifier::rlimit(60)]
proof fn lemma_perp_normal(
    s: int,
    eta: int,
    cos: int,
    rho: int,
    delta: int,
    u: (int, int, int),
    n: (int, int, int),
    m: (int, int, int),
    p: (int, int, int),
)
    requires
        s == SCALE,
        -4 * s <= eta <= 4 * s,
        -3 * s <= cos <= 3 * s,
        -s < rho < s,
        n.0 * n.0 + n.1 * n.1 + n.2 * n.2 == s * s + delta,
        -6 * s <= delta <= 2,
        u.0 * n.0 + u.1 * n.1 + u.2 * n.2 + cos * s == rho,
        -s <= n.0 <= s && -s <= n.1 <= s && -s <= n.2 <= s,
        -s < n.0 * cos - m.0 * s < s,
        -s < n.1 * cos - m.1 * s < s,
        -s < n.2 * cos - m.2 * s < s,
        -s < (u.0 + m.0) * eta - p.0 * s < s,
        -s < (u.1 + m.1) * eta - p.1 * s < s,
        -s < (u.2 + m.2) * eta - p.2 * s < s,
    ensures
        -95 * s <= p.0 * n.0 + p.1 * n.1 + p.2 * n.2 <= 95 * s,
{
    let ss = s * s;
    let mu0 = n.0 * cos - m.0 * s;
    let mu1 = n.1 * cos - m.1 * s;
    let mu2 = n.2 * cos - m.2 * s;
    let pi0 = (u.0 + m.0) * eta - p.0 * s;
    let pi1 = (u.1 + m.1) * eta - p.1 * s;
    let pi2 = (u.2 + m.2) * eta - p.2 * s;
    let un = u.0 * n.0 + u.1 * n.1 + u.2 * n.2;
    let nn = n.0 * n.0 + n.1 * n.1 + n.2 * n.2;
    let en = (u.0 + m.0) * n.0 + (u.1 + m.1) * n.1 + (u.2 + m.2) * n.2;
    let pn = p.0 * n.0 + p.1 * n.1 + p.2 * n.2;
    let mun = mu0 * n.0 + mu1 * n.1 + mu2 * n.2;
    let pin = pi0 * n.0 + pi1 * n.1 + pi2 * n.2;
    // the sum of the direction and the scaled normal, against the normal
    assert((m.0 * n.0) * s == (n.0 * n.0) * cos - mu0 * n.0) by (nonlinear_arith)
        requires
            mu0 == n.0 * cos - m.0 * s,
    ;
    assert((m.1 * n.1) * s == (n.1 * n.1) * cos - mu1 * n.1) by (nonlinear_arith)
        requires
            mu1 == n.1 * cos - m.1 * s,
    ;
    assert((m.2 * n.2) * s == (n.2 * n.2) * cos - mu2 * n.2) by (nonlinear_arith)
        requires
            mu2 == n.2 * cos - m.2 * s,
    ;
    let mn = m.0 * n.0 + m.1 * n.1 + m.2 * n.2;
    assert(mn * s == (m.0 * n.0) * s + (m.1 * n.1) * s + (m.2 * n.2) * s) by (nonlinear_arith)
        requires
            mn == m.0 * n.0 + m.1 * n.1 + m.2 * n.2,
    ;
    assert(nn * cos == (n.0 * n.0) * cos + (n.1 * n.1) * cos + (n.2 * n.2) * cos)
        by (nonlinear_arith)
        requires
            nn == n.0 * n.0 + n.1 * n.1 + n.2 * n.2,
    ;
    assert(mn * s == nn * cos - mun);
    assert(en == un + mn) by (nonlinear_arith)
        requires
            en == (u.0 + m.0) * n.0 + (u.1 + m.1) * n.1 + (u.2 + m.2) * n.2,
            un == u.0 * n.0 + u.1 * n.1 + u.2 * n.2,
            mn == m.0 * n.0 + m.1 * n.1 + m.2 * n.2,
    ;
    let t_rho = rho * s;
    let t_delta = cos * delta;
    assert(en * s == t_rho + t_delta - mun) by (nonlinear_arith)
        requires
            en == un + mn,
            mn * s == nn * cos - mun,
            nn == s * s + delta,
            un + cos * s == rho,
            t_rho == rho * s,
            t_delta == cos * delta,
    ;
    lemma_product_bound(rho, s, s, s);
    lemma_product_bound(cos, delta, 3 * s, 6 * s);
    lemma_product_bound(mu0, n.0, s, s);
    lemma_product_bound(mu1, n.1, s, s);
    lemma_product_bound(mu2, n.2, s, s);
    assert((3 * s) * (6 * s) == 18 * ss) by (nonlinear_arith)
        requires
            ss == s * s,
    ;
    assert(-(22 * ss) <= en * s <= 22 * ss);
    assert(-22 * s <= en <= 22 * s) by (nonlinear_arith)
        requires
            -(22 * (s * s)) <= en * s <= 22 * (s * s),
            s > 0,
    ;
    // the part in the surface, against the normal
    assert((p.0 * n.0) * s == ((u.0 + m.0) * n.0) * eta - pi0 * n.0) by (nonlinear_arith)
        requires
            pi0 == (u.0 + m.0) * eta - p.0 * s,
    ;
    assert((p.1 * n.1) * s == ((u.1 + m.1) * n.1) * eta - pi1 * n.1) by (nonlinear_arith)
        requires
            pi1 == (u.1 + m.1) * eta - p.1 * s,
    ;
    assert((p.2 * n.2) * s == ((u.2 + m.2) * n.2) * eta - pi2 * n.2) by (nonlinear_arith)
        requires
            pi2 == (u.2 + m.2) * eta - p.2 * s,
    ;
    assert(pn * s == (p.0 * n.0) * s + (p.1 * n.1) * s + (p.2 * n.2) * s) by (nonlinear_arith)
        requires
            pn == p.0 * n.0 + p.1 * n.1 + p.2 * n.2,
    ;
    assert(en * eta == ((u.0 + m.0) * n.0) * eta + ((u.1 + m.1) * n.1) * eta + ((u.2 + m.2)
        * n.2) * eta) by (nonlinear_arith)
        requires
            en == (u.0 + m.0) * n.0 + (u.1 + m.1) * n.1 + (u.2 + m.2) * n.2,
    ;
    assert(pn * s == en * eta - pin);
    lemma_product_bound(en, eta, 22 * s, 4 * s);
    lemma_product_bound(pi0, n.0, s, s);
    lemma_product_bound(pi1, n.1, s, s);
    lemma_product_bound(pi2, n.2, s, s);
    assert((22 * s) * (4 * s) == 88 * ss) by (nonlinear_arith)
        requires
            ss == s * s,
    ;
    assert(-(91 * ss) <= pn * s <= 91 * ss);
    assert(-95 * s <= pn <= 95 * s) by (nonlinear_arith)
        requires
            -(91 * (s * s)) <= pn * s <= 91 * (s * s),
            s > 0,
    ;
}

/// A refraction gives a direction of length one. For a direction `uv` with
/// components between minus one and one, a normal `n` of length one and a
/// ratio of at most four in magnitude, where the cosine of incidence is not
/// capped and the sine of the refracted ray does not exceed one: the exact
/// squared length of the refracted direction differs from one by at most 330
/// raw units.
#[verifier::rlimit(60)]
pub proof fn lemma_refract_length(uv: Vec3, n: Vec3, eta_ratio: Fixed)
    requires
        uv.is_within(SCALE as int),
        n.is_within(SCALE as int),
        SCALE * SCALE - 6 * SCALE <= raw_dot(n, n) <= SCALE * SCALE + 2,
        -4 * SCALE <= eta_ratio@ <= 4 * SCALE,
        uv.neg_spec().dot_spec(n)@ <= SCALE,
        refract_perp(uv, n, eta_ratio).length_squared_spec()@ <= SCALE,
    ensures
        SCALE * SCALE - 330 * SCALE <= raw_dot(
            refract_spec(uv, n, eta_ratio),
            refract_spec(uv, n, eta_ratio),
        ) <= SCALE * SCALE + 330 * SCALE,
{
    let s = SCALE as int;
    let ss = s * s;
    let eta = eta_ratio@;
    let (u0, u1, u2) = (uv.x@, uv.y@, uv.z@);
    let (n0, n1, n2) = (n.x@, n.y@, n.z@);
    let delta = raw_dot(n, n) - ss;
    // the cosine
    let back = uv.neg_spec();
    assert(back.x@ == -u0 && back.y@ == -u1 && back.z@ == -u2);
    let un = u0 * n0 + u1 * n1 + u2 * n2;
    assert(raw_dot(back, n) == -un) by (nonlinear_arith)
        requires
            raw_dot(back, n) == back.x@ * n0 + back.y@ * n1 + back.z@ * n2,
            back.x@ == -u0 && back.y@ == -u1 && back.z@ == -u2,
            un == u0 * n0 + u1 * n1 + u2 * n2,
    ;
    lemma_product_bound(u0, n0, s, s);
    lemma_product_bound(u1, n1, s, s);
    lemma_product_bound(u2, n2, s, s);
    assert(3 * ss == 3 * s * s) by (nonlinear_arith)
        requires
            ss == s * s,
    ;
    lemma_quotient_within(-un, 3 * s);
    let cos = trunc_div(-un, s);
    lemma_trunc_div_remainder(-un, s);
    let rho = un + cos * s;
    assert(back.dot_spec(n)@ == cos);
    assert(incidence_cosine(uv, n)@ == cos);
    // the part in the surface
    lemma_scaled(n0, cos, s, 3 * s);
    lemma_scaled(n1, cos, s, 3 * s);
    lemma_scaled(n2, cos, s, 3 * s);
    assert(s * (3 * s) == (3 * s) * s) by (nonlinear_arith);
    lemma_quotient_within(n0 * cos, 3 * s);
    lemma_quotient_within(n1 * cos, 3 * s);
    lemma_quotient_within(n2 * cos, 3 * s);
    let m0 = trunc_div(n0 * cos, s);
    let m1 = trunc_div(n1 * cos, s);
    let m2 = trunc_div(n2 * cos, s);
    let turned = n.scale_spec(incidence_cosine(uv, n));
    assert(turned.x@ == m0 && turned.y@ == m1 && turned.z@ == m2);
    let sum = uv.add_spec(turned);
    assert(sum.x@ == u0 + m0 && sum.y@ == u1 + m1 && sum.z@ == u2 + m2);
    lemma_scaled(u0 + m0, eta, 4 * s, 4 * s);
    lemma_scaled(u1 + m1, eta, 4 * s, 4 * s);
    lemma_scaled(u2 + m2, eta, 4 * s, 4 * s);
    assert((4 * s) * (4 * s) == (16 * s) * s) by (nonlinear_arith);
    lemma_quotient_within((u0 + m0) * eta, 16 * s);
    lemma_quotient_within((u1 + m1) * eta, 16 * s);
    lemma_quotient_within((u2 + m2) * eta, 16 * s);
    let flat0 = trunc_div((u0 + m0) * eta, s);
    let flat1 = trunc_div((u1 + m1) * eta, s);
    let flat2 = trunc_div((u2 + m2) * eta, s);
    let perp = refract_perp(uv, n, eta_ratio);
    assert(perp.x@ == flat0 && perp.y@ == flat1 && perp.z@ == flat2);
    lemma_perp_normal(s, eta, cos, rho, delta, (u0, u1, u2), (n0, n1, n2), (m0, m1, m2), (
        flat0,
        flat1,
        flat2,
    ));
    // its squared length, and the root
    let pp = raw_dot(perp, perp);
    assert(flat0 * flat0 >= 0 && flat1 * flat1 >= 0 && flat2 * flat2 >= 0) by (nonlinear_arith);
    lemma_product_bound(flat0, flat0, 16 * s, 16 * s);
    lemma_product_bound(flat1, flat1, 16 * s, 16 * s);
    lemma_product_bound(flat2, flat2, 16 * s, 16 * s);
    assert((16 * s) * (16 * s) == (256 * s) * s) by (nonlinear_arith);
    lemma_quotient_within(pp, 768 * s);
    let ps = trunc_div(pp, s);
    vstd::arithmetic::div_mod::lemma_fundamental_div_mod(pp, s);
    vstd::arithmetic::div_mod::lemma_mod_bound(pp, s);
    let kappa = pp - ps * s;
    assert(ps * s == s * ps) by (nonlinear_arith);
    assert(0 <= kappa < s);
    assert(perp.length_squared_spec()@ == ps);
    let left = Fixed::one_spec().sub_spec(perp.length_squared_spec());
    assert(left@ == s - ps);
    left.lemma_sqrt_range();
    let r = left.sqrt_spec()@;
    let sigma = (s - ps) * s - r * r;
    if s - ps > 0 {
        lemma_floor_sqrt_exists((s - ps) * s);
        assert(0 <= sigma <= 2 * r) by (nonlinear_arith)
            requires
                r * r <= (s - ps) * s < (r + 1) * (r + 1),
                sigma == (s - ps) * s - r * r,
        ;
    } else {
        assert(r == 0);
        assert(sigma == 0) by (nonlinear_arith)
            requires
                sigma == (s - ps) * s - r * r,
                s - ps == 0,
                r == 0,
        ;
    }
    assert(r <= s) by (nonlinear_arith)
        requires
            r >= 0,
            r * r <= (s - ps) * s,
            0 <= s - ps <= s,
            s > 0,
    ;
    // the part along the normal
    let down = left.sqrt_spec().neg_spec();
    assert(down@ == -r);
    lemma_scaled(n0, -r, s, s);
    lemma_scaled(n1, -r, s, s);
    lemma_scaled(n2, -r, s, s);
    lemma_quotient_within(n0 * (-r), s);
    lemma_quotient_within(n1 * (-r), s);
    lemma_quotient_within(n2 * (-r), s);
    let q0 = trunc_div(n0 * (-r), s);
    let q1 = trunc_div(n1 * (-r), s);
    let q2 = trunc_div(n2 * (-r), s);
    let par = refract_parallel(perp, n);
    assert(par.x@ == q0 && par.y@ == q1 && par.z@ == q2);
    let d = refract_spec(uv, n, eta_ratio);
    assert(d.x@ == flat0 + q0 && d.y@ == flat1 + q1 && d.z@ == flat2 + q2);
    let t0 = n0 * (-r) - q0 * s;
    let t1 = n1 * (-r) - q1 * s;
    let t2 = n2 * (-r) - q2 * s;
    assert((flat0 + q0) * s == flat0 * s + n0 * (-r) - t0) by (nonlinear_arith)
        requires
            t0 == n0 * (-r) - q0 * s,
    ;
    assert((flat1 + q1) * s == flat1 * s + n1 * (-r) - t1) by (nonlinear_arith)
        requires
            t1 == n1 * (-r) - q1 * s,
    ;
    assert((flat2 + q2) * s == flat2 * s + n2 * (-r) - t2) by (nonlinear_arith)
        requires
            t2 == n2 * (-r) - q2 * s,
    ;
    lemma_refract_core(
        s,
        r,
        ps,
        kappa,
        sigma,
        delta,
        flat0 * n0 + flat1 * n1 + flat2 * n2,
        (flat0, flat1, flat2),
        (n0, n1, n2),
        (t0, t1, t2),
        (d.x@, d.y@, d.z@),
    );
}

/// The mirror image of the direction `v` at a surface with unit normal `n`.
pub fn reflect(v: Vec3, n: Vec3) -> (r: Vec3)
    ensures
        r == reflect_spec(v, n),
{
    let twice = Fixed::from_int(2).mul(v.dot(n));
    v.sub(n.scale(twice))
}

/// The direction of the unit vector `uv` after it crosses a surface with unit
/// normal `n` into a medium whose refractive index is `1 / eta_ratio` times
/// that of the medium it leaves, by Snell's law.
pub fn refract(uv: Vec3, n: Vec3, eta_ratio: Fixed) -> (r: Vec3)
    ensures
        r == refract_spec(uv, n, eta_ratio),
{
    let cos_theta = uv.neg().dot(n).min(Fixed::one());
    let r_out_perp = uv.add(n.scale(cos_theta)).scale(eta_ratio);
    let r_out_parallel = n.scale(Fixed::one().sub(r_out_perp.length_squared()).sqrt().neg());
    r_out_perp.add(r_out_parallel)
}

} // verus!
