//! Decimal fixed-point numbers with saturating arithmetic.
//!
//! A [`Fixed`] holds a whole number of raw units; `SCALE` raw units make the
//! value one. Every operation is total: a result that would leave the range
//! `[-LIMIT, LIMIT]` is clamped to it, and quotients are rounded toward zero.

use vstd::prelude::*;

verus! {

/// Number of raw units in the value one.
pub const SCALE: i64 = 1_000_000_000;

/// Largest magnitude, in raw units, that a number can hold.
pub const LIMIT: i64 = 4_000_000_000_000_000_000;

/// `v` brought into the range `[-LIMIT, LIMIT]`.
pub open spec fn clamp(v: int) -> int {
    if v > LIMIT as int {
        LIMIT as int
    } else if v < -(LIMIT as int) {
        -(LIMIT as int)
    } else {
        v
    }
}

/// The distance of `v` from zero.
pub open spec fn magnitude(v: int) -> int {
    if v < 0 {
        -v
    } else {
        v
    }
}

/// The quotient `n / d` rounded toward zero; zero where `d` is zero.
pub open spec fn trunc_div(n: int, d: int) -> int {
    if d == 0 {
        0
    } else if (n < 0) == (d < 0) {
        magnitude(n) / magnitude(d)
    } else {
        -(magnitude(n) / magnitude(d))
    }
}

/// Rounding toward zero treats a number and its opposite alike.
pub proof fn lemma_trunc_div_neg(n: int, d: int)
    ensures
        trunc_div(-n, d) == -trunc_div(n, d),
{
    if d != 0 && n == 0 {
        vstd::arithmetic::div_mod::lemma_div_of0(magnitude(d));
    }
}

/// Rounding toward zero keeps the order of the numerators.
pub proof fn lemma_trunc_div_monotone(a: int, b: int, d: int)
    requires
        a <= b,
        0 < d,
    ensures
        trunc_div(a, d) <= trunc_div(b, d),
{
    if a >= 0 {
        vstd::arithmetic::div_mod::lemma_div_is_ordered(a, b, d);
    } else if b < 0 {
        vstd::arithmetic::div_mod::lemma_div_is_ordered(-b, -a, d);
    } else {
        vstd::arithmetic::div_mod::lemma_div_pos_is_pos(-a, d);
        vstd::arithmetic::div_mod::lemma_div_pos_is_pos(b, d);
    }
}

/// A numerator no larger in magnitude than a positive denominator gives a
/// quotient between minus one and one.
pub proof fn lemma_trunc_div_fraction(n: int, d: int)
    requires
        d > 0,
        -d <= n <= d,
    ensures
        -(SCALE as int) <= trunc_div(n * SCALE, d) <= SCALE as int,
{
    lemma_trunc_div_monotone(n * SCALE, d * SCALE, d);
    lemma_trunc_div_monotone(-d * SCALE, n * SCALE, d);
    assert(d * SCALE == SCALE * d && -d * SCALE == -(SCALE * d)) by (nonlinear_arith);
    vstd::arithmetic::div_mod::lemma_div_by_multiple(SCALE as int, d);
}

/// Rounding toward zero changes a quotient by less than one: the quotient
/// times the divisor differs from the numerator by less than the divisor.
pub proof fn lemma_trunc_div_remainder(n: int, d: int)
    requires
        d > 0,
    ensures
        -d < n - trunc_div(n, d) * d < d,
{
    let m = magnitude(n);
    let q = m / d;
    vstd::arithmetic::div_mod::lemma_fundamental_div_mod(m, d);
    vstd::arithmetic::div_mod::lemma_mod_bound(m, d);
    assert(q * d == d * q) by (nonlinear_arith);
    assert((-q) * d == -(d * q)) by (nonlinear_arith);
}

/// The square of a quotient in raw units, against the square of the exact
/// quotient: rounding toward zero makes it no larger, and smaller by less
/// than `2 |w| SCALE r` once both are multiplied by the square of the divisor.
pub proof fn lemma_quotient_square(w: int, r: int)
    requires
        r > 0,
    ensures
        ({
            let n = trunc_div(w * SCALE, r);
            &&& n * n * (r * r) <= w * w * (SCALE * SCALE)
            &&& n * n * (r * r) >= w * w * (SCALE * SCALE) - 2 * magnitude(w) * SCALE * r
        }),
{
    let n = trunc_div(w * SCALE, r);
    let m = magnitude(w);
    let b = m * SCALE;
    assert(magnitude(w * SCALE) == b) by (nonlinear_arith)
        requires
            m == magnitude(w),
            b == m * SCALE,
    ;
    let k = b / r;
    let a = k * r;
    vstd::arithmetic::div_mod::lemma_fundamental_div_mod(b, r);
    vstd::arithmetic::div_mod::lemma_mod_bound(b, r);
    vstd::arithmetic::div_mod::lemma_div_pos_is_pos(b, r);
    assert(a == r * k) by (nonlinear_arith)
        requires
            a == k * r,
    ;
    assert(0 <= a <= b < a + r);
    assert(n == k || n == -k);
    assert(n * n * (r * r) == a * a) by (nonlinear_arith)
        requires
            n == k || n == -k,
            a == k * r,
    ;
    assert(w * w * (SCALE * SCALE) == b * b) by (nonlinear_arith)
        requires
            b == m * SCALE,
            m == w || m == -w,
    ;
    assert(2 * magnitude(w) * SCALE * r == 2 * b * r) by (nonlinear_arith)
        requires
            b == m * SCALE,
            m == magnitude(w),
    ;
    assert(a * a <= b * b) by (nonlinear_arith)
        requires
            0 <= a <= b,
    ;
    assert(a * a >= b * b - 2 * b * r) by (nonlinear_arith)
        requires
            0 <= a <= b < a + r,
            r > 0,
    ;
}

/// `r` is the largest natural number whose square does not exceed `n`.
pub open spec fn is_floor_sqrt(n: int, r: int) -> bool {
    0 <= r && r * r <= n < (r + 1) * (r + 1)
}

/// The largest natural number whose square does not exceed `n`, for `n >= 0`.
pub open spec fn floor_sqrt(n: int) -> int {
    choose|r: int| is_floor_sqrt(n, r)
}

/// The floor square root is unique: any `r` that brackets `n` is it.
pub proof fn lemma_floor_sqrt_unique(n: int, r: int)
    requires
        is_floor_sqrt(n, r),
    ensures
        floor_sqrt(n) == r,
{
    let c = floor_sqrt(n);
    assert(is_floor_sqrt(n, c));
    if c < r {
        assert((c + 1) * (c + 1) <= r * r) by (nonlinear_arith)
            requires
                0 <= c + 1 <= r,
        ;
    } else if r < c {
        assert((r + 1) * (r + 1) <= c * c) by (nonlinear_arith)
            requires
                0 <= r + 1 <= c,
        ;
    }
}

/// The floor square root never decreases as its argument grows.
pub proof fn lemma_floor_sqrt_monotone(m: int, n: int)
    requires
        0 <= m <= n,
    ensures
        0 <= floor_sqrt(m) <= floor_sqrt(n),
{
    lemma_floor_sqrt_exists(m);
    lemma_floor_sqrt_exists(n);
    let a = floor_sqrt(m);
    let b = floor_sqrt(n);
    if b < a {
        assert((b + 1) * (b + 1) <= a * a) by (nonlinear_arith)
            requires
                0 <= b + 1 <= a,
        ;
    }
}

/// Every natural number has a floor square root.
pub proof fn lemma_floor_sqrt_exists(n: int)
    requires
        0 <= n,
    ensures
        is_floor_sqrt(n, floor_sqrt(n)),
    decreases n,
{
    if n == 0 {
        assert(is_floor_sqrt(0, 0));
    } else {
        lemma_floor_sqrt_exists(n - 1);
        let p = floor_sqrt(n - 1);
        if (p + 1) * (p + 1) <= n {
            assert((p + 1) * (p + 1) == n);
            assert(n < (p + 2) * (p + 2)) by (nonlinear_arith)
                requires
                    (p + 1) * (p + 1) == n,
                    0 <= p,
            ;
            assert(is_floor_sqrt(n, p + 1));
        } else {
            assert(p * p <= n);
            assert(is_floor_sqrt(n, p));
        }
    }
}

/// A decimal fixed-point number: `raw / SCALE`, with `|raw| <= LIMIT`.
#[derive(Clone, Copy, Debug, PartialEq, Eq, Structural)]
pub struct Fixed {
    raw: i64,
}

impl View for Fixed {
    type V = int;

    /// The number in raw units.
    closed spec fn view(&self) -> int {
        self.raw as int
    }
}

impl Fixed {
    /// The range that every number keeps to.
    #[verifier::type_invariant]
    pub open spec fn wf(self) -> bool {
        -(LIMIT as int) <= self@ <= LIMIT as int
    }

    /// The number of `v` raw units.
    pub closed spec fn of(v: int) -> Fixed {
        Fixed { raw: v as i64 }
    }

    /// `of` and the view are inverse to each other within the range.
    pub broadcast proof fn lemma_of(v: int)
        requires
            -(LIMIT as int) <= v <= LIMIT as int,
        ensures
            (#[trigger] Fixed::of(v))@ == v,
            Fixed::of(v).wf(),
    {
    }

    /// A number is determined by its view.
    pub proof fn lemma_of_view(self)
        ensures
            Fixed::of(self@) == self,
    {
    }

    /// The number zero.
    pub open spec fn zero_spec() -> Fixed {
        Fixed::of(0)
    }

    /// The number one.
    pub open spec fn one_spec() -> Fixed {
        Fixed::of(SCALE as int)
    }

    /// The largest number.
    pub open spec fn max_value_spec() -> Fixed {
        Fixed::of(LIMIT as int)
    }

    /// The whole number `n`, clamped to the range.
    pub open spec fn from_int_spec(n: int) -> Fixed {
        Fixed::of(clamp(n * SCALE))
    }

    /// The sum, clamped to the range.
    pub open spec fn add_spec(self, rhs: Fixed) -> Fixed {
        Fixed::of(clamp(self@ + rhs@))
    }

    /// The difference, clamped to the range.
    pub open spec fn sub_spec(self, rhs: Fixed) -> Fixed {
        Fixed::of(clamp(self@ - rhs@))
    }

    /// The opposite number.
    pub open spec fn neg_spec(self) -> Fixed {
        Fixed::of(clamp(-self@))
    }

    /// The magnitude.
    pub open spec fn abs_spec(self) -> Fixed {
        Fixed::of(clamp(magnitude(self@)))
    }

    /// The product, rounded toward zero to a whole raw unit and clamped to the
    /// range.
    pub open spec fn mul_spec(self, rhs: Fixed) -> Fixed {
        Fixed::of(clamp(trunc_div(self@ * rhs@, SCALE as int)))
    }

    /// Division saturates where the divisor is zero: the quotient of a
    /// positive number is `LIMIT`, of a negative one `-LIMIT`, of zero zero.
    pub open spec fn div_spec(self, rhs: Fixed) -> Fixed {
        if rhs@ != 0 {
            Fixed::of(clamp(trunc_div(self@ * SCALE, rhs@)))
        } else if self@ > 0 {
            Fixed::of(LIMIT as int)
        } else if self@ < 0 {
            Fixed::of(-(LIMIT as int))
        } else {
            Fixed::of(0)
        }
    }

    /// The square root rounded down to a whole raw unit; zero for a number
    /// that is not positive.
    pub open spec fn sqrt_spec(self) -> Fixed {
        if self@ > 0 {
            Fixed::of(floor_sqrt(self@ * SCALE))
        } else {
            Fixed::of(0)
        }
    }

    /// The smaller of two numbers.
    pub open spec fn min_spec(self, rhs: Fixed) -> Fixed {
        if self@ <= rhs@ {
            self
        } else {
            rhs
        }
    }

    /// The larger of two numbers.
    pub open spec fn max_spec(self, rhs: Fixed) -> Fixed {
        if self@ >= rhs@ {
            self
        } else {
            rhs
        }
    }

    /// `self` multiplied `n` times into one, rounding after each step.
    pub open spec fn powi_spec(self, n: nat) -> Fixed
        decreases n,
    {
        if n == 0 {
            Fixed::one_spec()
        } else {
            self.powi_spec((n - 1) as nat).mul_spec(self)
        }
    }

    /// A square root is never negative and keeps to the range.
    pub proof fn lemma_sqrt_range(self)
        ensures
            0 <= self.sqrt_spec()@ <= LIMIT as int,
            self@ > 0 ==> self.sqrt_spec()@ == floor_sqrt(self@ * SCALE),
    {
        if self@ > 0 {
            let n = self@ * SCALE;
            lemma_floor_sqrt_exists(n);
            let root = floor_sqrt(n);
            if root > LIMIT as int {
                assert(root * root > n) by (nonlinear_arith)
                    requires
                        root > 4_000_000_000_000_000_000,
                        n <= 0x8000_0000_0000_0000 * 1_000_000_000,
                ;
            }
        }
    }

    /// The larger number has the larger square root.
    pub proof fn lemma_sqrt_monotone(self, other: Fixed)
        requires
            self@ <= other@,
        ensures
            self.sqrt_spec()@ <= other.sqrt_spec()@,
    {
        self.lemma_sqrt_range();
        other.lemma_sqrt_range();
        if self@ > 0 {
            lemma_floor_sqrt_monotone(self@ * SCALE, other@ * SCALE);
        }
    }

    /// Adding a number that is not negative gives no less than taking it away.
    pub proof fn lemma_sub_le_add(self, rhs: Fixed)
        requires
            rhs@ >= 0,
        ensures
            self.sub_spec(rhs)@ <= self.add_spec(rhs)@,
    {
    }

    /// The product of numbers that are not negative is not negative and
    /// grows with each factor.
    pub proof fn lemma_mul_monotone(self, rhs: Fixed, other: Fixed, other_rhs: Fixed)
        requires
            0 <= self@ <= other@,
            0 <= rhs@ <= other_rhs@,
        ensures
            0 <= self.mul_spec(rhs)@ <= other.mul_spec(other_rhs)@,
    {
        let small = self@ * rhs@;
        let large = other@ * other_rhs@;
        assert(0 <= small <= large) by (nonlinear_arith)
            requires
                0 <= self@ <= other@,
                0 <= rhs@ <= other_rhs@,
                small == self@ * rhs@,
                large == other@ * other_rhs@,
        ;
        lemma_trunc_div_monotone(0, small, SCALE as int);
        lemma_trunc_div_monotone(small, large, SCALE as int);
    }

    /// A number that is not negative, multiplied by a number between zero
    /// and one, does not grow and does not become negative.
    pub proof fn lemma_mul_by_fraction(self, rhs: Fixed)
        requires
            0 <= self@,
            0 <= rhs@ <= SCALE as int,
        ensures
            0 <= self.mul_spec(rhs)@ <= self@,
    {
        let product = self@ * rhs@;
        let whole = self@ * SCALE;
        assert(0 <= product <= whole) by (nonlinear_arith)
            requires
                0 <= self@,
                0 <= rhs@ <= SCALE as int,
                product == self@ * rhs@,
                whole == self@ * SCALE,
        ;
        lemma_trunc_div_monotone(0, product, SCALE as int);
        lemma_trunc_div_monotone(product, whole, SCALE as int);
        vstd::arithmetic::div_mod::lemma_div_by_multiple(self@, SCALE as int);
    }

    /// The quotient of a number by a positive number that is at least as
    /// large in magnitude lies between minus one and one.
    pub proof fn lemma_div_fraction(self, divisor: Fixed)
        requires
            divisor@ > 0,
            -divisor@ <= self@ <= divisor@,
        ensures
            -(SCALE as int) <= self.div_spec(divisor)@ <= SCALE as int,
    {
        lemma_trunc_div_fraction(self@, divisor@);
    }

    /// The quotient of a number that is not negative by a positive number
    /// is not negative.
    pub proof fn lemma_div_nonneg(self, divisor: Fixed)
        requires
            self@ >= 0,
            divisor@ > 0,
        ensures
            self.div_spec(divisor)@ >= 0,
    {
        lemma_trunc_div_monotone(0, self@ * SCALE, divisor@);
    }

    /// The order of the factors does not matter.
    pub proof fn lemma_mul_commutes(self, rhs: Fixed)
        ensures
            self.mul_spec(rhs) == rhs.mul_spec(self),
    {
        assert(self@ * rhs@ == rhs@ * self@) by (nonlinear_arith);
    }

    /// One times a number is the number.
    pub proof fn lemma_mul_one(self)
        requires
            self.wf(),
        ensures
            Fixed::one_spec().mul_spec(self) == self,
            self.mul_spec(Fixed::one_spec()) == self,
    {
        self.lemma_mul_commutes(Fixed::one_spec());
        vstd::arithmetic::div_mod::lemma_div_by_multiple(magnitude(self@), SCALE as int);
        assert(magnitude(self@ * SCALE) == magnitude(self@) * SCALE) by (nonlinear_arith);
    }

    /// The powers of a number between zero and one lie between zero and one.
    pub proof fn lemma_powi_fraction(self, n: nat)
        requires
            0 <= self@ <= SCALE as int,
        ensures
            0 <= self.powi_spec(n)@ <= SCALE as int,
        decreases n,
    {
        if n > 0 {
            self.lemma_powi_fraction((n - 1) as nat);
            self.powi_spec((n - 1) as nat).lemma_mul_by_fraction(self);
        }
    }

    /// Among numbers that are not negative, the larger has the larger powers.
    pub proof fn lemma_powi_monotone(self, other: Fixed, n: nat)
        requires
            0 <= self@ <= other@,
        ensures
            0 <= self.powi_spec(n)@ <= other.powi_spec(n)@,
        decreases n,
    {
        if n > 0 {
            self.lemma_powi_monotone(other, (n - 1) as nat);
            self.powi_spec((n - 1) as nat).lemma_mul_monotone(
                self,
                other.powi_spec((n - 1) as nat),
                other,
            );
        }
    }

    /// The number of `raw` units, clamped to the range.
    pub fn from_raw(raw: i64) -> (r: Fixed)
        ensures
            r == Fixed::of(clamp(raw as int)),
    {
        if raw > LIMIT {
            Fixed { raw: LIMIT }
        } else if raw < -LIMIT {
            Fixed { raw: -LIMIT }
        } else {
            Fixed { raw }
        }
    }

    /// The whole number `n`, clamped to the range.
    pub fn from_int(n: i64) -> (r: Fixed)
        ensures
            r == Fixed::from_int_spec(n as int),
    {
        proof {
            lemma_product_bound(n as int, SCALE as int, 0x8000_0000_0000_0000, SCALE as int);
        }
        let wide: i128 = (n as i128) * (SCALE as i128);
        saturate(wide)
    }

    /// The number in raw units.
    pub fn raw(self) -> (r: i64)
        ensures
            r == self@,
            -(LIMIT as int) <= r <= LIMIT as int,
    {
        proof {
            use_type_invariant(self);
        }
        self.raw
    }

    /// The number zero.
    pub fn zero() -> (r: Fixed)
        ensures
            r == Fixed::zero_spec(),
    {
        Fixed { raw: 0 }
    }

    /// The number one.
    pub fn one() -> (r: Fixed)
        ensures
            r == Fixed::one_spec(),
    {
        Fixed { raw: SCALE }
    }

    /// The largest number; it stands for an unbounded value.
    pub fn max_value() -> (r: Fixed)
        ensures
            r == Fixed::max_value_spec(),
    {
        Fixed { raw: LIMIT }
    }

    /// The sum; it saturates at the ends of the range.
    pub fn add(self, rhs: Fixed) -> (r: Fixed)
        ensures
            r == self.add_spec(rhs),
    {
        proof {
            use_type_invariant(self);
            use_type_invariant(rhs);
        }
        saturate(self.raw as i128 + rhs.raw as i128)
    }

    /// The difference; it saturates at the ends of the range.
    pub fn sub(self, rhs: Fixed) -> (r: Fixed)
        ensures
            r == self.sub_spec(rhs),
    {
        proof {
            use_type_invariant(self);
            use_type_invariant(rhs);
        }
        saturate(self.raw as i128 - rhs.raw as i128)
    }

    /// The opposite number.
    pub fn neg(self) -> (r: Fixed)
        ensures
            r == self.neg_spec(),
    {
        proof {
            use_type_invariant(self);
        }
        Fixed { raw: -self.raw }
    }

    /// The magnitude.
    pub fn abs(self) -> (r: Fixed)
        ensures
            r == self.abs_spec(),
    {
        proof {
            use_type_invariant(self);
        }
        if self.raw < 0 {
            Fixed { raw: -self.raw }
        } else {
            self
        }
    }

    /// The product, rounded toward zero; it saturates at the ends of the range.
    pub fn mul(self, rhs: Fixed) -> (r: Fixed)
        ensures
            r == self.mul_spec(rhs),
    {
        proof {
            use_type_invariant(self);
            use_type_invariant(rhs);
            lemma_product_bound(self.raw as int, rhs.raw as int, LIMIT as int, LIMIT as int);
        }
        let product: i128 = (self.raw as i128) * (rhs.raw as i128);
        saturate(div_toward_zero(product, SCALE as i128))
    }

    /// The quotient, rounded toward zero; it saturates at the ends of the range,
    /// and so does division by zero.
    pub fn div(self, rhs: Fixed) -> (r: Fixed)
        ensures
            r == self.div_spec(rhs),
    {
        proof {
            use_type_invariant(self);
            use_type_invariant(rhs);
        }
        if rhs.raw != 0 {
            let scaled: i128 = (self.raw as i128) * (SCALE as i128);
            saturate(div_toward_zero(scaled, rhs.raw as i128))
        } else if self.raw > 0 {
            Fixed { raw: LIMIT }
        } else if self.raw < 0 {
            Fixed { raw: -LIMIT }
        } else {
            Fixed { raw: 0 }
        }
    }

    /// The square root, rounded down; zero for a number that is not positive.
    pub fn sqrt(self) -> (r: Fixed)
        ensures
            r == self.sqrt_spec(),
    {
        proof {
            use_type_invariant(self);
        }
        if self.raw > 0 {
            let scaled: u128 = (self.raw as u128) * (SCALE as u128);
            let root = floor_sqrt_u128(scaled);
            proof {
                lemma_floor_sqrt_unique(scaled as int, root as int);
                assert(root <= LIMIT) by (nonlinear_arith)
                    requires
                        root * root <= scaled,
                        scaled <= 4_000_000_000_000_000_000_000_000_000,
                ;
            }
            Fixed { raw: root as i64 }
        } else {
            Fixed { raw: 0 }
        }
    }

    /// The smaller of two numbers.
    pub fn min(self, rhs: Fixed) -> (r: Fixed)
        ensures
            r == self.min_spec(rhs),
    {
        if self.raw <= rhs.raw {
            self
        } else {
            rhs
        }
    }

    /// The larger of two numbers.
    pub fn max(self, rhs: Fixed) -> (r: Fixed)
        ensures
            r == self.max_spec(rhs),
    {
        if self.raw >= rhs.raw {
            self
        } else {
            rhs
        }
    }

    /// The `n`th power, by repeated multiplication.
    pub fn powi(self, n: u32) -> (r: Fixed)
        ensures
            r == self.powi_spec(n as nat),
    {
        let mut acc = Fixed::one();
        let mut i: u32 = 0;
        while i < n
            invariant
                i <= n,
                acc == self.powi_spec(i as nat),
            decreases n - i,
        {
            acc = acc.mul(self);
            i = i + 1;
        }
        acc
    }

    /// Whether `self` is less than `rhs`.
    pub fn lt(self, rhs: Fixed) -> (b: bool)
        ensures
            b == (self@ < rhs@),
    {
        self.raw < rhs.raw
    }

    /// Whether `self` is at most `rhs`.
    pub fn le(self, rhs: Fixed) -> (b: bool)
        ensures
            b == (self@ <= rhs@),
    {
        self.raw <= rhs.raw
    }

    /// Whether `self` is greater than `rhs`.
    pub fn gt(self, rhs: Fixed) -> (b: bool)
        ensures
            b == (self@ > rhs@),
    {
        self.raw > rhs.raw
    }

    /// Whether the number is zero.
    pub fn is_zero(self) -> (b: bool)
        ensures
            b == (self@ == 0),
    {
        self.raw == 0
    }

    /// Whether the number is less than zero.
    pub fn is_negative(self) -> (b: bool)
        ensures
            b == (self@ < 0),
    {
        self.raw < 0
    }
}

/// The square of `p s + u h - c`, term by term.
pub proof fn lemma_square_of_three(p: int, u: int, h: int, c: int, s: int)
    ensures
        (p * s + u * h - c) * (p * s + u * h - c) == (s * s) * (p * p) + (h * h) * (u * u) + c * c
            + 2 * ((s * h) * (p * u)) - 2 * (s * (p * c)) - 2 * (h * (u * c)),
{
    let a = p * s;
    let b = u * h;
    assert((a + b - c) * (a + b - c) == a * a + b * b + c * c + 2 * (a * b) - 2 * (a * c) - 2 * (b
        * c)) by (nonlinear_arith);
    assert(a * a == (s * s) * (p * p)) by (nonlinear_arith)
        requires
            a == p * s,
    ;
    assert(b * b == (h * h) * (u * u)) by (nonlinear_arith)
        requires
            b == u * h,
    ;
    assert(a * b == (s * h) * (p * u)) by (nonlinear_arith)
        requires
            a == p * s,
            b == u * h,
    ;
    assert(a * c == s * (p * c)) by (nonlinear_arith)
        requires
            a == p * s,
    ;
    assert(b * c == h * (u * c)) by (nonlinear_arith)
        requires
            b == u * h,
    ;
}

/// The product of two bounded numbers is bounded by the product of the bounds.
pub proof fn lemma_product_bound(a: int, b: int, la: int, lb: int)
    by (nonlinear_arith)
    requires
        -la <= a <= la,
        -lb <= b <= lb,
    ensures
        -(la * lb) <= a * b <= la * lb,
{
}

/// The number of `v` raw units, clamped to the range.
pub(crate) fn saturate(v: i128) -> (r: Fixed)
    ensures
        r == Fixed::of(clamp(v as int)),
{
    if v > LIMIT as i128 {
        Fixed { raw: LIMIT }
    } else if v < -(LIMIT as i128) {
        Fixed { raw: -LIMIT }
    } else {
        Fixed { raw: v as i64 }
    }
}

/// The quotient of two wide integers, rounded toward zero.
pub(crate) fn div_toward_zero(n: i128, d: i128) -> (q: i128)
    requires
        d != 0,
        n > i128::MIN,
        d > i128::MIN,
    ensures
        q == trunc_div(n as int, d as int),
{
    let un: u128 = if n < 0 {
        (-n) as u128
    } else {
        n as u128
    };
    let ud: u128 = if d < 0 {
        (-d) as u128
    } else {
        d as u128
    };
    let uq: u128 = un / ud;
    proof {
        vstd::arithmetic::div_mod::lemma_div_nonincreasing(un as int, ud as int);
    }
    if (n < 0) == (d < 0) {
        uq as i128
    } else {
        -(uq as i128)
    }
}

/// The floor square root of `n`, found by bisection.
pub(crate) fn floor_sqrt_u128(n: u128) -> (r: u128)
    requires
        n < 0x4000_0000_0000_0000_0000_0000_0000_0000,
    ensures
        is_floor_sqrt(n as int, r as int),
        r < 0x8000_0000_0000_0000,
{
    let mut lo: u128 = 0;
    let mut hi: u128 = 0x8000_0000_0000_0000;
    while hi - lo > 1
        invariant
            lo < hi <= 0x8000_0000_0000_0000,
            lo * lo <= n < hi * hi,
        decreases hi - lo,
    {
        let mid: u128 = lo + (hi - lo) / 2;
        assert(mid * mid < 0x4000_0000_0000_0000_0000_0000_0000_0000) by (nonlinear_arith)
            requires
                mid < 0x8000_0000_0000_0000,
        ;
        if mid * mid <= n {
            lo = mid;
        } else {
            hi = mid;
        }
    }
    lo
}

} // verus!
