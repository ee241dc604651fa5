//! Exact rational scalars.
//!
//! Every scalar the sampler touches (temperatures, world coordinates,
//! distances, color channels) is a rational number `num / den` held in two
//! `i64` fields.  Specifications speak about the mathematical value through
//! the ghost pair [`Q`] of unbounded integers, so contracts are exact: no
//! rounding is ever hidden.
//!
//! Arithmetic normalizes results by the gcd and reports an out-of-range
//! result as `None`; the contracts state exactly when that happens.

use vstd::prelude::*;
use vstd::arithmetic::div_mod::lemma_fundamental_div_mod;
use vstd::arithmetic::div_mod::lemma_fundamental_div_mod_converse;

verus! {

/// Mathematical value of a rational: numerator and denominator as unbounded
/// integers.  Only meaningful when `d > 0`.
pub struct Q {
    pub n: int,
    pub d: int,
}

pub open spec fn q_wf(q: Q) -> bool {
    q.d > 0
}

/// `a == b` as rationals (cross multiplication).
pub open spec fn q_eq(a: Q, b: Q) -> bool {
    a.n * b.d == b.n * a.d
}

/// `a <= b` as rationals.
pub open spec fn q_le(a: Q, b: Q) -> bool {
    a.n * b.d <= b.n * a.d
}

/// `a < b` as rationals.
pub open spec fn q_lt(a: Q, b: Q) -> bool {
    a.n * b.d < b.n * a.d
}

pub open spec fn q_int(i: int) -> Q {
    Q { n: i, d: 1 }
}

pub open spec fn q_zero() -> Q {
    q_int(0)
}

pub open spec fn q_one() -> Q {
    q_int(1)
}

pub open spec fn q_neg(a: Q) -> Q {
    Q { n: -a.n, d: a.d }
}

pub open spec fn q_add(a: Q, b: Q) -> Q {
    Q { n: a.n * b.d + b.n * a.d, d: a.d * b.d }
}

pub open spec fn q_sub(a: Q, b: Q) -> Q {
    Q { n: a.n * b.d - b.n * a.d, d: a.d * b.d }
}

pub open spec fn q_mul(a: Q, b: Q) -> Q {
    Q { n: a.n * b.n, d: a.d * b.d }
}

/// Reciprocal, with the sign moved into the numerator so the denominator
/// stays positive whenever `a.n != 0`.
pub open spec fn q_inv(a: Q) -> Q {
    if a.n >= 0 {
        Q { n: a.d, d: a.n }
    } else {
        Q { n: -a.d, d: -a.n }
    }
}

pub open spec fn q_div(a: Q, b: Q) -> Q {
    q_mul(a, q_inv(b))
}

pub open spec fn abs_i(n: int) -> nat {
    if n >= 0 {
        n as nat
    } else {
        (-n) as nat
    }
}

/// Greatest common divisor (Euclid).
pub open spec fn gcd(a: nat, b: nat) -> nat
    decreases b,
{
    if b == 0 {
        a
    } else {
        gcd(b, a % b)
    }
}

/// `g` divides `x`.
pub open spec fn divides(g: nat, x: nat) -> bool {
    exists|k: nat| x == #[trigger] (g * k)
}

pub proof fn lemma_gcd_divides(a: nat, b: nat)
    ensures
        divides(gcd(a, b), a),
        divides(gcd(a, b), b),
    decreases b,
{
    if b == 0 {
        assert(a == gcd(a, b) * 1nat);
        assert(0nat == gcd(a, b) * 0nat);
    } else {
        lemma_gcd_divides(b, a % b);
        let g = gcd(b, a % b);
        let k1 = choose|k: nat| b == #[trigger] (g * k);
        let k2 = choose|k: nat| (a % b) == #[trigger] (g * k);
        lemma_fundamental_div_mod(a as int, b as int);
        let q = a as int / b as int;
        assert(a as int == b * q + (a % b));
        assert(q >= 0) by (nonlinear_arith)
            requires
                b > 0,
                a >= 0,
                q == a as int / b as int,
        ;
        assert(a as int == g * (k1 * q + k2)) by (nonlinear_arith)
            requires
                a as int == b * q + (a % b),
                b == g * k1,
                (a % b) == g * k2,
        ;
        assert(a == g * ((k1 * q + k2) as nat));
    }
}

/// The gcd of two numbers, the second positive, is positive.
pub proof fn lemma_gcd_pos(a: nat, b: nat)
    requires
        b > 0,
    ensures
        gcd(a, b) > 0,
{
    lemma_gcd_divides(a, b);
    let g = gcd(a, b);
    let k = choose|k: nat| b == #[trigger] (g * k);
    if g == 0 {
        assert(b == 0nat * k);
        assert(b == 0) by (nonlinear_arith)
            requires
                b == 0nat * k,
        ;
    }
}

/// Exact division: if `x == g * k` with `g > 0` then `x / g == k`.
pub proof fn lemma_exact_div(x: int, g: int, k: int)
    requires
        g > 0,
        x == g * k,
    ensures
        x / g == k,
{
    assert(x == k * g + 0) by (nonlinear_arith)
        requires
            x == g * k,
    ;
    lemma_fundamental_div_mod_converse(x, g, k, 0);
}

/// The gcd of the numerator's magnitude and the denominator, as an `int`.
pub open spec fn norm_gcd(n: int, d: int) -> int {
    gcd(abs_i(n), abs_i(d)) as int
}

/// The gcd-reduced form of the fraction `n / d` (for `d > 0`).
pub open spec fn q_norm(n: int, d: int) -> Q {
    Q { n: n / norm_gcd(n, d), d: d / norm_gcd(n, d) }
}

/// Whether the reduced form of `n / d` fits the `i64` fields of a [`Rat`].
pub open spec fn fits_i64(n: int, d: int) -> bool {
    &&& -(i64::MAX as int) <= q_norm(n, d).n <= i64::MAX as int
    &&& q_norm(n, d).d <= i64::MAX as int
}

/// Reducing a fraction keeps its value: `q_norm(n, d) == n / d` as rationals.
pub proof fn lemma_norm_eq(n: int, d: int)
    requires
        d > 0,
    ensures
        q_wf(q_norm(n, d)),
        q_eq(q_norm(n, d), Q { n, d }),
{
    let g = norm_gcd(n, d);
    lemma_gcd_divides(abs_i(n), abs_i(d));
    lemma_gcd_pos(abs_i(n), abs_i(d));
    let kn = choose|k: nat| abs_i(n) == #[trigger] ((g as nat) * k);
    let kd = choose|k: nat| abs_i(d) == #[trigger] ((g as nat) * k);
    lemma_exact_div(d, g, kd as int);
    assert(kd >= 1) by (nonlinear_arith)
        requires
            d > 0,
            g > 0,
            d == g * kd,
    ;
    if n >= 0 {
        lemma_exact_div(n, g, kn as int);
        assert(kn * d == n * kd) by (nonlinear_arith)
            requires
                n == g * kn,
                d == g * kd,
        ;
    } else {
        assert(n == g * (-(kn as int))) by (nonlinear_arith)
            requires
                -n == g * kn,
        ;
        lemma_exact_div(n, g, -(kn as int));
        assert((-(kn as int)) * d == n * kd) by (nonlinear_arith)
            requires
                n == g * (-(kn as int)),
                d == g * kd,
        ;
    }
}

/// Upper bound of a product from bounds of the factors.
pub proof fn lemma_mul_bounds(a: int, b: int, ma: int, mb: int)
    by (nonlinear_arith)
    requires
        -ma <= a <= ma,
        -mb <= b <= mb,
        0 <= ma,
        0 <= mb,
    ensures
        -(ma * mb) <= a * b <= ma * mb,
{
}

/// Bounds of a product of two positive bounded factors.
pub proof fn lemma_mul_pos_bounds(a: int, b: int, ma: int, mb: int)
    by (nonlinear_arith)
    requires
        1 <= a <= ma,
        1 <= b <= mb,
    ensures
        1 <= a * b <= ma * mb,
{
}

/// An exact rational scalar: the value `num / den`.
///
/// Well-formed values keep `den` positive and `num` above `i64::MIN`, so the
/// magnitude of either field always fits `i64::MAX`.
#[derive(Clone, Copy, Debug, PartialEq, Eq, Structural)]
pub struct Rat {
    pub num: i64,
    pub den: i64,
}

impl View for Rat {
    type V = Q;

    open spec fn view(&self) -> Q {
        Q { n: self.num as int, d: self.den as int }
    }
}

impl Rat {
    pub open spec fn wf(self) -> bool {
        &&& self.den > 0
        &&& self.num > i64::MIN
    }

    /// The rational `num / den`.
    pub fn new(num: i64, den: i64) -> (r: Rat)
        requires
            den > 0,
            num > i64::MIN,
        ensures
            r.wf(),
            r@ == (Q { n: num as int, d: den as int }),
    {
        Rat { num, den }
    }

    pub fn from_int(i: i64) -> (r: Rat)
        requires
            i > i64::MIN,
        ensures
            r.wf(),
            r@ == q_int(i as int),
    {
        Rat { num: i, den: 1 }
    }

    pub fn zero() -> (r: Rat)
        ensures
            r.wf(),
            r@ == q_zero(),
    {
        Rat { num: 0, den: 1 }
    }

    pub fn one() -> (r: Rat)
        ensures
            r.wf(),
            r@ == q_one(),
    {
        Rat { num: 1, den: 1 }
    }

    /// Exact comparison `self <= rhs`.
    pub fn le(self, rhs: Rat) -> (b: bool)
        requires
            self.wf(),
            rhs.wf(),
        ensures
            b == q_le(self@, rhs@),
    {
        proof {
            lemma_mul_bounds(self.num as int, rhs.den as int, i64::MAX as int, i64::MAX as int);
            lemma_mul_bounds(rhs.num as int, self.den as int, i64::MAX as int, i64::MAX as int);
        }
        (self.num as i128) * (rhs.den as i128) <= (rhs.num as i128) * (self.den as i128)
    }

    /// Exact comparison `self < rhs`.
    pub fn lt(self, rhs: Rat) -> (b: bool)
        requires
            self.wf(),
            rhs.wf(),
        ensures
            b == q_lt(self@, rhs@),
    {
        proof {
            lemma_mul_bounds(self.num as int, rhs.den as int, i64::MAX as int, i64::MAX as int);
            lemma_mul_bounds(rhs.num as int, self.den as int, i64::MAX as int, i64::MAX as int);
        }
        (self.num as i128) * (rhs.den as i128) < (rhs.num as i128) * (self.den as i128)
    }

    /// Exact equality of values (not of representations).
    pub fn eq_val(self, rhs: Rat) -> (b: bool)
        requires
            self.wf(),
            rhs.wf(),
        ensures
            b == q_eq(self@, rhs@),
    {
        proof {
            lemma_mul_bounds(self.num as int, rhs.den as int, i64::MAX as int, i64::MAX as int);
            lemma_mul_bounds(rhs.num as int, self.den as int, i64::MAX as int, i64::MAX as int);
        }
        (self.num as i128) * (rhs.den as i128) == (rhs.num as i128) * (self.den as i128)
    }

    /// Exact negation; never fails.
    pub fn neg(self) -> (r: Rat)
        requires
            self.wf(),
        ensures
            r.wf(),
            r@ == q_neg(self@),
    {
        Rat { num: -self.num, den: self.den }
    }

    /// Exact absolute value; never fails.
    pub fn abs(self) -> (r: Rat)
        requires
            self.wf(),
        ensures
            r.wf(),
            r@ == q_abs(self@),
    {
        if self.num < 0 {
            Rat { num: -self.num, den: self.den }
        } else {
            self
        }
    }

    /// Gcd-reduces the fraction `(sign) n_mag / d` and packs it into `i64`
    /// fields; `None` exactly when the reduced form does not fit.
    fn normalize(neg: bool, n_mag: u128, d: u128) -> (r: Option<Rat>)
        requires
            1 <= d,
        ensures
            r is Some <==> fits_i64(signed(neg, n_mag as int), d as int),
            r matches Some(s) ==> s.wf() && s@ == q_norm(signed(neg, n_mag as int), d as int),
    {
        let ghost n_int: int = signed(neg, n_mag as int);
        proof {
            assert(abs_i(n_int) == n_mag as nat);
            lemma_gcd_divides(n_mag as nat, d as nat);
            lemma_gcd_pos(n_mag as nat, d as nat);
        }
        let g = gcd_u128(n_mag, d);
        let ghost kn: nat = choose|k: nat| n_mag as nat == #[trigger] ((g as nat) * k);
        let ghost kd: nat = choose|k: nat| d as nat == #[trigger] ((g as nat) * k);
        let n1 = n_mag / g;
        let d1 = d / g;
        proof {
            lemma_exact_div(n_mag as int, g as int, kn as int);
            lemma_exact_div(d as int, g as int, kd as int);
            assert(n1 == kn);
            assert(d1 == kd);
            assert(kd >= 1) by (nonlinear_arith)
                requires
                    d >= 1,
                    g >= 1,
                    d as nat == (g as nat) * kd,
            ;
            if neg {
                assert(n_int == (g as int) * (-(kn as int))) by (nonlinear_arith)
                    requires
                        -n_int == (g as int) * (kn as int),
                ;
                lemma_exact_div(n_int, g as int, -(kn as int));
            } else {
                lemma_exact_div(n_int, g as int, kn as int);
            }
            assert(norm_gcd(n_int, d as int) == g as int);
            assert(q_norm(n_int, d as int).d == kd as int);
        }
        if n1 <= i64::MAX as u128 && d1 <= i64::MAX as u128 {
            let num: i64 = if neg {
                -(n1 as i64)
            } else {
                n1 as i64
            };
            Some(Rat { num, den: d1 as i64 })
        } else {
            None
        }
    }

    /// Exact addition; `None` exactly when the reduced sum leaves `i64`.
    pub fn add(self, rhs: Rat) -> (r: Option<Rat>)
        requires
            self.wf(),
            rhs.wf(),
        ensures
            r is Some <==> fits_i64(q_add(self@, rhs@).n, q_add(self@, rhs@).d),
            r matches Some(s) ==> {
                &&& s.wf()
                &&& s@ == q_norm(q_add(self@, rhs@).n, q_add(self@, rhs@).d)
                &&& q_eq(s@, q_add(self@, rhs@))
            },
    {
        proof {
            lemma_mul_bounds(self.num as int, rhs.den as int, i64::MAX as int, i64::MAX as int);
            lemma_mul_bounds(rhs.num as int, self.den as int, i64::MAX as int, i64::MAX as int);
            lemma_mul_bounds(self.den as int, rhs.den as int, i64::MAX as int, i64::MAX as int);
            assert((self.den as int) * (rhs.den as int) >= 1) by (nonlinear_arith)
                requires
                    self.den >= 1,
                    rhs.den >= 1,
            ;
        }
        let n: i128 = (self.num as i128) * (rhs.den as i128) + (rhs.num as i128) * (self.den as i128);
        let d: i128 = (self.den as i128) * (rhs.den as i128);
        let (neg, mag) = if n < 0 {
            (true, (-n) as u128)
        } else {
            (false, n as u128)
        };
        let r = Self::normalize(neg, mag, d as u128);
        proof {
            assert(signed(neg, mag as int) == q_add(self@, rhs@).n);
            if r is Some {
                lemma_norm_eq(q_add(self@, rhs@).n, q_add(self@, rhs@).d);
            }
        }
        r
    }

    /// Exact subtraction; `None` exactly when the reduced difference leaves
    /// `i64`.
    pub fn sub(self, rhs: Rat) -> (r: Option<Rat>)
        requires
            self.wf(),
            rhs.wf(),
        ensures
            r is Some <==> fits_i64(q_sub(self@, rhs@).n, q_sub(self@, rhs@).d),
            r matches Some(s) ==> {
                &&& s.wf()
                &&& s@ == q_norm(q_sub(self@, rhs@).n, q_sub(self@, rhs@).d)
                &&& q_eq(s@, q_sub(self@, rhs@))
            },
    {
        proof {
            lemma_mul_bounds(self.num as int, rhs.den as int, i64::MAX as int, i64::MAX as int);
            lemma_mul_bounds(rhs.num as int, self.den as int, i64::MAX as int, i64::MAX as int);
            lemma_mul_bounds(self.den as int, rhs.den as int, i64::MAX as int, i64::MAX as int);
            assert((self.den as int) * (rhs.den as int) >= 1) by (nonlinear_arith)
                requires
                    self.den >= 1,
                    rhs.den >= 1,
            ;
        }
        let n: i128 = (self.num as i128) * (rhs.den as i128) - (rhs.num as i128) * (self.den as i128);
        let d: i128 = (self.den as i128) * (rhs.den as i128);
        let (neg, mag) = if n < 0 {
            (true, (-n) as u128)
        } else {
            (false, n as u128)
        };
        let r = Self::normalize(neg, mag, d as u128);
        proof {
            assert(signed(neg, mag as int) == q_sub(self@, rhs@).n);
            if r is Some {
                lemma_norm_eq(q_sub(self@, rhs@).n, q_sub(self@, rhs@).d);
            }
        }
        r
    }

    /// Exact multiplication; `None` exactly when the reduced product leaves
    /// `i64`.
    pub fn mul(self, rhs: Rat) -> (r: Option<Rat>)
        requires
            self.wf(),
            rhs.wf(),
        ensures
            r is Some <==> fits_i64(q_mul(self@, rhs@).n, q_mul(self@, rhs@).d),
            r matches Some(s) ==> {
                &&& s.wf()
                &&& s@ == q_norm(q_mul(self@, rhs@).n, q_mul(self@, rhs@).d)
                &&& q_eq(s@, q_mul(self@, rhs@))
            },
    {
        proof {
            lemma_mul_bounds(self.num as int, rhs.num as int, i64::MAX as int, i64::MAX as int);
            lemma_mul_bounds(self.den as int, rhs.den as int, i64::MAX as int, i64::MAX as int);
            assert((self.den as int) * (rhs.den as int) >= 1) by (nonlinear_arith)
                requires
                    self.den >= 1,
                    rhs.den >= 1,
            ;
        }
        let n: i128 = (self.num as i128) * (rhs.num as i128);
        let d: i128 = (self.den as i128) * (rhs.den as i128);
        let (neg, mag) = if n < 0 {
            (true, (-n) as u128)
        } else {
            (false, n as u128)
        };
        let r = Self::normalize(neg, mag, d as u128);
        proof {
            assert(signed(neg, mag as int) == q_mul(self@, rhs@).n);
            if r is Some {
                lemma_norm_eq(q_mul(self@, rhs@).n, q_mul(self@, rhs@).d);
            }
        }
        r
    }

    /// Exact division; the divisor must be nonzero.  `None` exactly when the
    /// reduced quotient leaves `i64`.
    pub fn div(self, rhs: Rat) -> (r: Option<Rat>)
        requires
            self.wf(),
            rhs.wf(),
            rhs.num != 0,
        ensures
            r is Some <==> fits_i64(q_div(self@, rhs@).n, q_div(self@, rhs@).d),
            r matches Some(s) ==> {
                &&& s.wf()
                &&& s@ == q_norm(q_div(self@, rhs@).n, q_div(self@, rhs@).d)
                &&& q_eq(s@, q_div(self@, rhs@))
            },
    {
        proof {
            lemma_mul_bounds(self.num as int, rhs.den as int, i64::MAX as int, i64::MAX as int);
            lemma_mul_bounds(self.den as int, rhs.num as int, i64::MAX as int, i64::MAX as int);
        }
        let n_raw: i128 = (self.num as i128) * (rhs.den as i128);
        let d_raw: i128 = (self.den as i128) * (rhs.num as i128);
        let (n, d): (i128, i128) = if rhs.num < 0 {
            (-n_raw, -d_raw)
        } else {
            (n_raw, d_raw)
        };
        proof {
            if rhs.num < 0 {
                assert((self.den as int) * (rhs.num as int) <= -1) by (nonlinear_arith)
                    requires
                        self.den >= 1,
                        rhs.num <= -1,
                ;
                assert(n as int == q_div(self@, rhs@).n && d as int == q_div(self@, rhs@).d)
                    by (nonlinear_arith)
                    requires
                        rhs.num < 0,
                        n as int == -((self.num as int) * (rhs.den as int)),
                        d as int == -((self.den as int) * (rhs.num as int)),
                        q_div(self@, rhs@).n == (self.num as int) * (-(rhs.den as int)),
                        q_div(self@, rhs@).d == (self.den as int) * (-(rhs.num as int)),
                ;
            } else {
                assert((self.den as int) * (rhs.num as int) >= 1) by (nonlinear_arith)
                    requires
                        self.den >= 1,
                        rhs.num >= 1,
                ;
            }
        }
        let (neg, mag) = if n < 0 {
            (true, (-n) as u128)
        } else {
            (false, n as u128)
        };
        let r = Self::normalize(neg, mag, d as u128);
        proof {
            assert(signed(neg, mag as int) == q_div(self@, rhs@).n);
            if r is Some {
                lemma_norm_eq(q_div(self@, rhs@).n, q_div(self@, rhs@).d);
            }
        }
        r
    }

    /// Floor of `self / rhs` as an integer, for a positive divisor; exact and
    /// total.
    pub fn floor_div(self, rhs: Rat) -> (r: i128)
        requires
            self.wf(),
            rhs.wf(),
            rhs.num > 0,
        ensures
            r == ((self@.n * rhs@.d) / (self@.d * rhs@.n)),
    {
        proof {
            lemma_mul_bounds(self.num as int, rhs.den as int, i64::MAX as int, i64::MAX as int);
            lemma_mul_bounds(self.den as int, rhs.num as int, i64::MAX as int, i64::MAX as int);
            assert((self.den as int) * (rhs.num as int) >= 1) by (nonlinear_arith)
                requires
                    self.den >= 1,
                    rhs.num >= 1,
            ;
        }
        let p: i128 = (self.num as i128) * (rhs.den as i128);
        let d: i128 = (self.den as i128) * (rhs.num as i128);
        if p >= 0 {
            let q = (p as u128) / (d as u128);
            q as i128
        } else {
            let m: u128 = (-p) as u128;
            let q = (m + (d as u128) - 1) / (d as u128);
            proof {
                let qi = ((m + d - 1) as int) / (d as int);
                let ri = ((m + d - 1) as int) % (d as int);
                lemma_fundamental_div_mod((m + d - 1) as int, d as int);
                assert(m + d - 1 == (d as int) * qi + ri);
                assert(0 <= (d as int) * qi - m < d);
                assert(-(m as int) == (-qi) * (d as int) + ((d as int) * qi - m))
                    by (nonlinear_arith);
                lemma_fundamental_div_mod_converse(
                    -(m as int),
                    d as int,
                    -qi,
                    (d as int) * qi - m,
                );
            }
            -(q as i128)
        }
    }
}

pub open spec fn q_sq(a: Q) -> Q {
    q_mul(a, a)
}

/// Rational equality is transitive (through a well-formed middle value).
pub proof fn lemma_q_eq_trans(a: Q, b: Q, c: Q)
    by (nonlinear_arith)
    requires
        q_wf(a),
        q_wf(b),
        q_wf(c),
        q_eq(a, b),
        q_eq(b, c),
    ensures
        q_eq(a, c),
{
}

/// Orderings and equality respect rational equality.
pub proof fn lemma_q_cmp_congr(a: Q, b: Q, a2: Q, b2: Q)
    by (nonlinear_arith)
    requires
        q_wf(a),
        q_wf(b),
        q_wf(a2),
        q_wf(b2),
        q_eq(a, a2),
        q_eq(b, b2),
    ensures
        q_le(a, b) == q_le(a2, b2),
        q_lt(a, b) == q_lt(a2, b2),
        q_eq(a, b) == q_eq(a2, b2),
{
}

/// Addition and subtraction respect rational equality.
pub proof fn lemma_q_add_congr(a: Q, b: Q, a2: Q, b2: Q)
    requires
        q_wf(a),
        q_wf(b),
        q_wf(a2),
        q_wf(b2),
        q_eq(a, a2),
        q_eq(b, b2),
    ensures
        q_eq(q_add(a, b), q_add(a2, b2)),
        q_eq(q_sub(a, b), q_sub(a2, b2)),
{
    assert((a.n * b.d) * (a2.d * b2.d) == (a2.n * b2.d) * (a.d * b.d)) by (nonlinear_arith)
        requires
            a.n * a2.d == a2.n * a.d,
            b.n * b2.d == b2.n * b.d,
    ;
    assert((b.n * a.d) * (a2.d * b2.d) == (b2.n * a2.d) * (a.d * b.d)) by (nonlinear_arith)
        requires
            a.n * a2.d == a2.n * a.d,
            b.n * b2.d == b2.n * b.d,
    ;
    assert(q_eq(q_add(a, b), q_add(a2, b2))) by (nonlinear_arith)
        requires
            (a.n * b.d) * (a2.d * b2.d) == (a2.n * b2.d) * (a.d * b.d),
            (b.n * a.d) * (a2.d * b2.d) == (b2.n * a2.d) * (a.d * b.d),
    ;
    assert(q_eq(q_sub(a, b), q_sub(a2, b2))) by (nonlinear_arith)
        requires
            (a.n * b.d) * (a2.d * b2.d) == (a2.n * b2.d) * (a.d * b.d),
            (b.n * a.d) * (a2.d * b2.d) == (b2.n * a2.d) * (a.d * b.d),
    ;
}

/// Multiplication respects rational equality.
pub proof fn lemma_q_mul_congr(a: Q, b: Q, a2: Q, b2: Q)
    by (nonlinear_arith)
    requires
        q_wf(a),
        q_wf(b),
        q_wf(a2),
        q_wf(b2),
        q_eq(a, a2),
        q_eq(b, b2),
    ensures
        q_eq(q_mul(a, b), q_mul(a2, b2)),
{
}

/// Division respects rational equality (nonzero divisor).
pub proof fn lemma_q_div_congr(a: Q, b: Q, a2: Q, b2: Q)
    requires
        q_wf(a),
        q_wf(b),
        q_wf(a2),
        q_wf(b2),
        b.n != 0,
        q_eq(a, a2),
        q_eq(b, b2),
    ensures
        q_eq(q_div(a, b), q_div(a2, b2)),
{
    assert(b2.n != 0 && (b.n > 0 <==> b2.n > 0)) by (nonlinear_arith)
        requires
            q_wf(b),
            q_wf(b2),
            b.n != 0,
            q_eq(b, b2),
    ;
    if b.n > 0 {
        assert((a.n * b.d) * (a2.d * b2.n) == (a2.n * b2.d) * (a.d * b.n)) by (nonlinear_arith)
            requires
                a.n * a2.d == a2.n * a.d,
                b.n * b2.d == b2.n * b.d,
        ;
    } else {
        assert((a.n * b.d) * (a2.d * b2.n) == (a2.n * b2.d) * (a.d * b.n)) by (nonlinear_arith)
            requires
                a.n * a2.d == a2.n * a.d,
                b.n * b2.d == b2.n * b.d,
        ;
        assert(q_eq(q_div(a, b), q_div(a2, b2))) by (nonlinear_arith)
            requires
                b.n < 0,
                b2.n < 0,
                (a.n * b.d) * (a2.d * b2.n) == (a2.n * b2.d) * (a.d * b.n),
        ;
    }
}

/// The arithmetic on `Q` keeps denominators positive.
pub proof fn lemma_q_ops_wf(a: Q, b: Q)
    by (nonlinear_arith)
    requires
        q_wf(a),
        q_wf(b),
    ensures
        q_wf(q_add(a, b)),
        q_wf(q_sub(a, b)),
        q_wf(q_mul(a, b)),
        b.n != 0 ==> q_wf(q_div(a, b)),
{
}

/// Adding a zero-valued rational changes nothing.
pub proof fn lemma_q_add_zero(a: Q, z: Q)
    by (nonlinear_arith)
    requires
        q_wf(a),
        q_wf(z),
        z.n == 0,
    ensures
        q_eq(q_add(a, z), a),
        q_eq(q_add(z, a), a),
{
}

/// The rational order is transitive (through a well-formed middle value),
/// in its weak, strict and mixed forms.
pub proof fn lemma_q_order_trans(a: Q, b: Q, c: Q)
    by (nonlinear_arith)
    requires
        q_wf(a),
        q_wf(b),
        q_wf(c),
    ensures
        q_le(a, b) && q_le(b, c) ==> q_le(a, c),
        q_le(a, b) && q_lt(b, c) ==> q_lt(a, c),
        q_lt(a, b) && q_le(b, c) ==> q_lt(a, c),
{
}

/// Subtracting preserves order: if `a <= b` then `c - b <= c - a`.
pub proof fn lemma_q_sub_mono(c: Q, a: Q, b: Q)
    by (nonlinear_arith)
    requires
        q_wf(a),
        q_wf(b),
        q_wf(c),
        q_le(a, b),
    ensures
        q_le(q_sub(c, b), q_sub(c, a)),
{
}

/// Subtracting a fixed value preserves order: if `a <= b` then
/// `a - c <= b - c`.
pub proof fn lemma_q_sub_mono_left(a: Q, b: Q, c: Q)
    by (nonlinear_arith)
    requires
        q_wf(a),
        q_wf(b),
        q_wf(c),
        q_le(a, b),
    ensures
        q_le(q_sub(a, c), q_sub(b, c)),
{
}

/// Absolute value.
pub open spec fn q_abs(a: Q) -> Q {
    if a.n >= 0 {
        a
    } else {
        q_neg(a)
    }
}

/// Equal rationals have numerators of the same sign.
pub proof fn lemma_q_eq_sign(a: Q, b: Q)
    by (nonlinear_arith)
    requires
        q_wf(a),
        q_wf(b),
        q_eq(a, b),
    ensures
        a.n > 0 <==> b.n > 0,
        a.n < 0 <==> b.n < 0,
{
}

/// Negation and absolute value respect rational equality.
pub proof fn lemma_q_abs_congr(a: Q, b: Q)
    requires
        q_wf(a),
        q_wf(b),
        q_eq(a, b),
    ensures
        q_eq(q_neg(a), q_neg(b)),
        q_eq(q_abs(a), q_abs(b)),
{
    lemma_q_eq_sign(a, b);
    assert(q_eq(q_neg(a), q_neg(b))) by (nonlinear_arith)
        requires
            q_eq(a, b),
    ;
}

/// Adding something positive to something nonnegative gives something
/// positive.
pub proof fn lemma_q_add_pos(a: Q, b: Q)
    by (nonlinear_arith)
    requires
        q_wf(a),
        q_wf(b),
        q_le(q_zero(), a),
        q_lt(q_zero(), b),
    ensures
        q_lt(q_zero(), q_add(a, b)),
{
}

/// The sum of two zero-valued rationals has a zero numerator.
pub proof fn lemma_q_add_both_zero(a: Q, b: Q)
    by (nonlinear_arith)
    requires
        a.n == 0,
        b.n == 0,
    ensures
        q_add(a, b).n == 0,
{
}

/// A zero factor makes the product's numerator zero.
pub proof fn lemma_q_mul_zero(a: Q, z: Q)
    by (nonlinear_arith)
    requires
        z.n == 0,
    ensures
        q_mul(a, z).n == 0,
        q_mul(z, a).n == 0,
{
}

/// Multiplying and then dividing by the same nonzero rational cancels.
pub proof fn lemma_q_mul_div_cancel(a: Q, b: Q)
    by (nonlinear_arith)
    requires
        q_wf(a),
        q_wf(b),
        b.n != 0,
    ensures
        q_eq(q_div(q_mul(a, b), b), a),
{
}

/// The reduced form of a fraction is no larger, field by field, than the raw
/// form.
pub proof fn lemma_norm_bounds(n: int, d: int)
    requires
        d > 0,
    ensures
        abs_i(q_norm(n, d).n) <= abs_i(n),
        1 <= q_norm(n, d).d <= d,
{
    let g = norm_gcd(n, d);
    lemma_gcd_divides(abs_i(n), abs_i(d));
    lemma_gcd_pos(abs_i(n), abs_i(d));
    let kn = choose|k: nat| abs_i(n) == #[trigger] ((g as nat) * k);
    let kd = choose|k: nat| abs_i(d) == #[trigger] ((g as nat) * k);
    lemma_exact_div(d, g, kd as int);
    assert(1 <= kd <= d) by (nonlinear_arith)
        requires
            d > 0,
            g >= 1,
            d == g * kd,
    ;
    if n >= 0 {
        lemma_exact_div(n, g, kn as int);
        assert(kn <= n) by (nonlinear_arith)
            requires
                n >= 0,
                g >= 1,
                n == g * kn,
        ;
    } else {
        assert(n == g * (-(kn as int))) by (nonlinear_arith)
            requires
                -n == g * kn,
        ;
        lemma_exact_div(n, g, -(kn as int));
        assert(kn <= -n) by (nonlinear_arith)
            requires
                n < 0,
                g >= 1,
                -n == g * kn,
        ;
    }
}

/// A fraction whose raw fields already fit `i64` has a reduced form that
/// fits as well.
pub proof fn lemma_raw_fits(n: int, d: int)
    requires
        d > 0,
        -(i64::MAX as int) <= n <= i64::MAX as int,
        d <= i64::MAX as int,
    ensures
        fits_i64(n, d),
{
    lemma_norm_bounds(n, d);
}

/// Integer square root: the greatest `s` with `s * s <= t`.
pub fn isqrt_u128(t: u128) -> (s: u128)
    requires
        t < 0x100000000000000000000000000000,
    ensures
        (s * s <= t) && (t < (s + 1) * (s + 1)),
        s <= 0x400000000000000,
{
    let mut lo: u128 = 0;
    let mut hi: u128 = 0x400000000000000;
    proof {
        assert((0x400000000000000 as int) * (0x400000000000000 as int)
            == 0x100000000000000000000000000000);
    }
    while hi - lo > 1
        invariant
            lo < hi <= 0x400000000000000,
            (lo as int) * (lo as int) <= t as int,
            (t as int) < (hi as int) * (hi as int),
        decreases hi - lo,
    {
        let mid = lo + (hi - lo) / 2;
        proof {
            lemma_mul_bounds(mid as int, mid as int, 0x400000000000000, 0x400000000000000);
        }
        if mid * mid <= t {
            lo = mid;
        } else {
            hi = mid;
        }
    }
    lo
}

/// `mag` with the given sign attached.
pub open spec fn signed(neg: bool, mag: int) -> int {
    if neg {
        -mag
    } else {
        mag
    }
}

/// Euclid's algorithm.
fn gcd_u128(a0: u128, b0: u128) -> (g: u128)
    ensures
        g as nat == gcd(a0 as nat, b0 as nat),
{
    let mut a = a0;
    let mut b = b0;
    while b != 0
        invariant
            gcd(a as nat, b as nat) == gcd(a0 as nat, b0 as nat),
        decreases b,
    {
        let t = a % b;
        a = b;
        b = t;
    }
    a
}

} // verus!
