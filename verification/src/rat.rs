//! Exact rational scalars.
//!
//! A `Rat` is a fraction of two `i128`s with a positive denominator. Every
//! arithmetic operation is checked: it returns `Some` of the exact result
//! whenever each intermediate machine value fits in `i128`, and `None`
//! otherwise. The mathematical meaning of a `Rat` is its model `Q`, a pair of
//! unbounded integers; two models denote the same number exactly when `q_eq`
//! holds (cross-multiplication).

use vstd::prelude::*;

verus! {

/// Errors surfaced by the numeric routines. Every computation over `Rat`
/// either yields the exact rational result or stops when an intermediate
/// value cannot be represented; computing standardization parameters
/// additionally rejects a column whose standard deviation vanishes.
#[derive(Clone, Copy, Debug, PartialEq, Eq, Structural)]
pub enum NumError {
    Overflow,
    ZeroStdDev,
}

/// Mathematical model of a rational number: an unbounded numerator and
/// denominator. All well-formed values keep `d > 0`.
pub struct Q {
    pub n: int,
    pub d: int,
}

pub open spec fn q_wf(a: Q) -> bool {
    a.d > 0
}

pub open spec fn q_zero() -> Q {
    Q { n: 0, d: 1 }
}

pub open spec fn q_one() -> Q {
    Q { n: 1, d: 1 }
}

pub open spec fn q_int(n: int) -> Q {
    Q { n: n, d: 1 }
}

/// Two models denote the same rational number.
pub open spec fn q_eq(a: Q, b: Q) -> bool {
    a.n * b.d == b.n * a.d
}

pub open spec fn q_lt(a: Q, b: Q) -> bool {
    a.n * b.d < b.n * a.d
}

pub open spec fn q_le(a: Q, b: Q) -> bool {
    a.n * b.d <= b.n * a.d
}

/// Zero is kept in the canonical form 0/1 so that long chains of operations
/// on zero never grow their denominators.
pub open spec fn q_norm(n: int, d: int) -> Q {
    if n == 0 {
        q_zero()
    } else {
        Q { n: n, d: d }
    }
}

/// Sum. Operands sharing a denominator keep it, so that summing a column of
/// like-denominator values does not grow the denominator.
pub open spec fn q_add(a: Q, b: Q) -> Q {
    if a.d == b.d {
        q_norm(a.n + b.n, a.d)
    } else {
        q_norm(a.n * b.d + b.n * a.d, a.d * b.d)
    }
}

pub open spec fn q_sub(a: Q, b: Q) -> Q {
    if a.d == b.d {
        q_norm(a.n - b.n, a.d)
    } else {
        q_norm(a.n * b.d - b.n * a.d, a.d * b.d)
    }
}

pub open spec fn q_mul(a: Q, b: Q) -> Q {
    q_norm(a.n * b.n, a.d * b.d)
}

/// Quotient; meaningful only for `b.n != 0`. The sign is moved into the
/// numerator so that the denominator stays positive.
pub open spec fn q_div(a: Q, b: Q) -> Q {
    if b.n > 0 {
        q_norm(a.n * b.d, a.d * b.n)
    } else {
        q_norm(-(a.n * b.d), -(a.d * b.n))
    }
}

pub open spec fn q_abs(a: Q) -> Q {
    if a.n < 0 {
        q_norm(-a.n, a.d)
    } else {
        a
    }
}

/// Truncation toward zero of `a * 10^4`, as used when comparing values to
/// four decimal places.
pub open spec fn q_trunc4(a: Q) -> int {
    let p = a.n * 10000;
    if p >= 0 {
        p / a.d
    } else {
        -((-p) / a.d)
    }
}

/// The machine range of an intermediate value.
pub open spec fn fits(x: int) -> bool {
    i128::MIN <= x && x <= i128::MAX
}

/// Checked counterparts of the operations above: `Some` of the exact result
/// when every intermediate fits in `i128`, `None` otherwise. These mirror the
/// executable code step for step.
pub open spec fn c_add(a: Q, b: Q) -> Option<Q> {
    if a.d == b.d {
        if fits(a.n + b.n) {
            Some(q_add(a, b))
        } else {
            None
        }
    } else if fits(a.n * b.d) && fits(b.n * a.d) && fits(a.n * b.d + b.n * a.d) && fits(
        a.d * b.d,
    ) {
        Some(q_add(a, b))
    } else {
        None
    }
}

pub open spec fn c_sub(a: Q, b: Q) -> Option<Q> {
    if a.d == b.d {
        if fits(a.n - b.n) {
            Some(q_sub(a, b))
        } else {
            None
        }
    } else if fits(a.n * b.d) && fits(b.n * a.d) && fits(a.n * b.d - b.n * a.d) && fits(
        a.d * b.d,
    ) {
        Some(q_sub(a, b))
    } else {
        None
    }
}

pub open spec fn c_mul(a: Q, b: Q) -> Option<Q> {
    if fits(a.n * b.n) && fits(a.d * b.d) {
        Some(q_mul(a, b))
    } else {
        None
    }
}

pub open spec fn c_div(a: Q, b: Q) -> Option<Q> {
    if fits(a.n * b.d) && fits(a.d * b.n) && (b.n > 0 || (fits(-(a.n * b.d)) && fits(
        -(a.d * b.n),
    ))) {
        Some(q_div(a, b))
    } else {
        None
    }
}

pub open spec fn c_abs(a: Q) -> Option<Q> {
    if a.n < 0 {
        if fits(-a.n) {
            Some(q_abs(a))
        } else {
            None
        }
    } else {
        Some(a)
    }
}

pub open spec fn c_lt(a: Q, b: Q) -> Option<bool> {
    if fits(a.n * b.d) && fits(b.n * a.d) {
        Some(q_lt(a, b))
    } else {
        None
    }
}

pub open spec fn c_le(a: Q, b: Q) -> Option<bool> {
    if fits(a.n * b.d) && fits(b.n * a.d) {
        Some(q_le(a, b))
    } else {
        None
    }
}

pub open spec fn c_eq(a: Q, b: Q) -> Option<bool> {
    if fits(a.n * b.d) && fits(b.n * a.d) {
        Some(q_eq(a, b))
    } else {
        None
    }
}

pub open spec fn c_trunc4(a: Q) -> Option<int> {
    if fits(a.n * 10000) && a.n * 10000 != i128::MIN {
        Some(q_trunc4(a))
    } else {
        None
    }
}

/// An exact rational scalar: numerator and positive denominator.
#[derive(Clone, Copy, Debug)]
pub struct Rat {
    n: i128,
    d: i128,
}

impl View for Rat {
    type V = Q;

    closed spec fn view(&self) -> Q {
        Q { n: self.n as int, d: self.d as int }
    }
}

/// The models of a sequence of rationals.
pub open spec fn vals(v: Seq<Rat>) -> Seq<Q> {
    v.map_values(|r: Rat| r@)
}

/// The models of a rectangular table of rationals, row-major.
pub open spec fn mat_vals(m: Seq<Vec<Rat>>) -> Seq<Seq<Q>> {
    m.map_values(|row: Vec<Rat>| vals(row@))
}

/// The checked result `r` carries exactly the model `s`: well-formed and equal
/// when `s` is `Some`, absent when `s` is `None`.
pub open spec fn opt_matches(r: Option<Rat>, s: Option<Q>) -> bool {
    match r {
        Some(v) => v.wf() && s == Some(v@),
        None => s is None,
    }
}

impl Rat {
    pub open spec fn wf(self) -> bool {
        q_wf(self@)
    }

    /// The fraction `n / d`, with zero put in canonical form.
    pub fn new(n: i128, d: i128) -> (r: Rat)
        requires
            d > 0,
        ensures
            r.wf(),
            r@ == q_norm(n as int, d as int),
    {
        if n == 0 {
            Rat { n: 0, d: 1 }
        } else {
            Rat { n, d }
        }
    }

    pub fn from_int(n: i128) -> (r: Rat)
        ensures
            r.wf(),
            r@ == q_norm(n as int, 1),
            q_eq(r@, q_int(n as int)),
    {
        Rat::new(n, 1)
    }

    pub fn zero() -> (r: Rat)
        ensures
            r.wf(),
            r@ == q_zero(),
    {
        Rat { n: 0, d: 1 }
    }

    pub fn one() -> (r: Rat)
        ensures
            r.wf(),
            r@ == q_one(),
    {
        Rat { n: 1, d: 1 }
    }

    pub fn num(self) -> (r: i128)
        ensures
            r == self@.n,
    {
        self.n
    }

    pub fn den(self) -> (r: i128)
        ensures
            r == self@.d,
    {
        self.d
    }

    pub fn checked_add(self, rhs: Rat) -> (r: Option<Rat>)
        requires
            self.wf(),
            rhs.wf(),
        ensures
            opt_matches(r, c_add(self@, rhs@)),
    {
        if self.d == rhs.d {
            match self.n.checked_add(rhs.n) {
                None => None,
                Some(n) => Some(Rat::new(n, self.d)),
            }
        } else {
            let p1 = match self.n.checked_mul(rhs.d) {
                None => {
                    return None;
                },
                Some(v) => v,
            };
            let p2 = match rhs.n.checked_mul(self.d) {
                None => {
                    return None;
                },
                Some(v) => v,
            };
            let n = match p1.checked_add(p2) {
                None => {
                    return None;
                },
                Some(v) => v,
            };
            let d = match self.d.checked_mul(rhs.d) {
                None => {
                    return None;
                },
                Some(v) => v,
            };
            assert(d > 0) by (nonlinear_arith)
                requires
                    self.d > 0,
                    rhs.d > 0,
                    d == self.d * rhs.d,
            ;
            Some(Rat::new(n, d))
        }
    }

    pub fn checked_sub(self, rhs: Rat) -> (r: Option<Rat>)
        requires
            self.wf(),
            rhs.wf(),
        ensures
            opt_matches(r, c_sub(self@, rhs@)),
    {
        if self.d == rhs.d {
            match self.n.checked_sub(rhs.n) {
                None => None,
                Some(n) => Some(Rat::new(n, self.d)),
            }
        } else {
            let p1 = match self.n.checked_mul(rhs.d) {
                None => {
                    return None;
                },
                Some(v) => v,
            };
            let p2 = match rhs.n.checked_mul(self.d) {
                None => {
                    return None;
                },
                Some(v) => v,
            };
            let n = match p1.checked_sub(p2) {
                None => {
                    return None;
                },
                Some(v) => v,
            };
            let d = match self.d.checked_mul(rhs.d) {
                None => {
                    return None;
                },
                Some(v) => v,
            };
            assert(d > 0) by (nonlinear_arith)
                requires
                    self.d > 0,
                    rhs.d > 0,
                    d == self.d * rhs.d,
            ;
            Some(Rat::new(n, d))
        }
    }

    pub fn checked_mul(self, rhs: Rat) -> (r: Option<Rat>)
        requires
            self.wf(),
            rhs.wf(),
        ensures
            opt_matches(r, c_mul(self@, rhs@)),
    {
        let n = match self.n.checked_mul(rhs.n) {
            None => {
                return None;
            },
            Some(v) => v,
        };
        let d = match self.d.checked_mul(rhs.d) {
            None => {
                return None;
            },
            Some(v) => v,
        };
        assert(d > 0) by (nonlinear_arith)
            requires
                self.d > 0,
                rhs.d > 0,
                d == self.d * rhs.d,
        ;
        Some(Rat::new(n, d))
    }

    pub fn checked_div(self, rhs: Rat) -> (r: Option<Rat>)
        requires
            self.wf(),
            rhs.wf(),
            rhs@.n != 0,
        ensures
            opt_matches(r, c_div(self@, rhs@)),
    {
        let p1 = match self.n.checked_mul(rhs.d) {
            None => {
                return None;
            },
            Some(v) => v,
        };
        let p2 = match self.d.checked_mul(rhs.n) {
            None => {
                return None;
            },
            Some(v) => v,
        };
        if rhs.n > 0 {
            assert(p2 > 0) by (nonlinear_arith)
                requires
                    self.d > 0,
                    rhs.n > 0,
                    p2 == self.d * rhs.n,
            ;
            Some(Rat::new(p1, p2))
        } else {
            let m1 = match (0i128).checked_sub(p1) {
                None => {
                    return None;
                },
                Some(v) => v,
            };
            let m2 = match (0i128).checked_sub(p2) {
                None => {
                    return None;
                },
                Some(v) => v,
            };
            assert(m2 > 0) by (nonlinear_arith)
                requires
                    self.d > 0,
                    rhs.n < 0,
                    p2 == self.d * rhs.n,
                    m2 == -p2,
            ;
            Some(Rat::new(m1, m2))
        }
    }

    pub fn checked_abs(self) -> (r: Option<Rat>)
        requires
            self.wf(),
        ensures
            opt_matches(r, c_abs(self@)),
    {
        if self.n < 0 {
            match (0i128).checked_sub(self.n) {
                None => None,
                Some(m) => Some(Rat::new(m, self.d)),
            }
        } else {
            Some(self)
        }
    }

    pub fn checked_lt(self, rhs: Rat) -> (r: Option<bool>)
        requires
            self.wf(),
            rhs.wf(),
        ensures
            r == c_lt(self@, rhs@),
    {
        let p1 = match self.n.checked_mul(rhs.d) {
            None => {
                return None;
            },
            Some(v) => v,
        };
        let p2 = match rhs.n.checked_mul(self.d) {
            None => {
                return None;
            },
            Some(v) => v,
        };
        Some(p1 < p2)
    }

    pub fn checked_le(self, rhs: Rat) -> (r: Option<bool>)
        requires
            self.wf(),
            rhs.wf(),
        ensures
            r == c_le(self@, rhs@),
    {
        let p1 = match self.n.checked_mul(rhs.d) {
            None => {
                return None;
            },
            Some(v) => v,
        };
        let p2 = match rhs.n.checked_mul(self.d) {
            None => {
                return None;
            },
            Some(v) => v,
        };
        Some(p1 <= p2)
    }

    pub fn checked_eq(self, rhs: Rat) -> (r: Option<bool>)
        requires
            self.wf(),
            rhs.wf(),
        ensures
            r == c_eq(self@, rhs@),
    {
        let p1 = match self.n.checked_mul(rhs.d) {
            None => {
                return None;
            },
            Some(v) => v,
        };
        let p2 = match rhs.n.checked_mul(self.d) {
            None => {
                return None;
            },
            Some(v) => v,
        };
        Some(p1 == p2)
    }

    pub fn is_zero(self) -> (r: bool)
        requires
            self.wf(),
        ensures
            r == (self@.n == 0),
            r == q_eq(self@, q_zero()),
    {
        proof {
            assert(0 * self@.d == 0) by (nonlinear_arith);
            assert(self@.n * 1 == self@.n);
        }
        self.n == 0
    }

    /// Truncation of `self * 10^4` toward zero, for comparing values to four
    /// decimal places.
    pub fn trunc4(self) -> (r: Option<i128>)
        requires
            self.wf(),
        ensures
            match r {
                Some(v) => c_trunc4(self@) == Some(v as int),
                None => c_trunc4(self@) is None,
            },
    {
        let p = match self.n.checked_mul(10000) {
            None => {
                return None;
            },
            Some(v) => v,
        };
        if p == i128::MIN {
            return None;
        }
        if p >= 0 {
            let q: u128 = (p as u128) / (self.d as u128);
            assert(q == (p as int) / (self.d as int));
            assert(q <= p as int) by (nonlinear_arith)
                requires
                    p >= 0,
                    self.d > 0,
                    q == (p as int) / (self.d as int),
            ;
            Some(q as i128)
        } else {
            let m: i128 = -p;
            let q: u128 = (m as u128) / (self.d as u128);
            assert(q == (m as int) / (self.d as int));
            assert(q <= m as int) by (nonlinear_arith)
                requires
                    m >= 0,
                    self.d > 0,
                    q == (m as int) / (self.d as int),
            ;
            Some(-(q as i128))
        }
    }
}

/// Equality of models is transitive.
pub proof fn lemma_q_eq_trans(a: Q, b: Q, c: Q)
    requires
        q_wf(a),
        q_wf(b),
        q_wf(c),
        q_eq(a, b),
        q_eq(b, c),
    ensures
        q_eq(a, c),
{
    assert(a.n * c.d == c.n * a.d) by (nonlinear_arith)
        requires
            a.n * b.d == b.n * a.d,
            b.n * c.d == c.n * b.d,
            b.d > 0,
    ;
}

/// The sum denotes the value of the cross-multiplied fraction.
pub proof fn lemma_add_raw(a: Q, b: Q)
    requires
        q_wf(a),
        q_wf(b),
    ensures
        q_wf(q_add(a, b)),
        q_add(a, b).n * (a.d * b.d) == (a.n * b.d + b.n * a.d) * q_add(a, b).d,
{
    let r = q_add(a, b);
    if a.d == b.d {
        assert(r.n * (a.d * b.d) == (a.n * b.d + b.n * a.d) * r.d) by (nonlinear_arith)
            requires
                a.d == b.d,
                a.d > 0,
                r == q_norm(a.n + b.n, a.d),
                q_norm(a.n + b.n, a.d) == (if a.n + b.n == 0 {
                    q_zero()
                } else {
                    Q { n: a.n + b.n, d: a.d }
                }),
        ;
    } else {
        assert(r.n * (a.d * b.d) == (a.n * b.d + b.n * a.d) * r.d && r.d > 0) by (nonlinear_arith)
            requires
                a.d > 0,
                b.d > 0,
                r == (if a.n * b.d + b.n * a.d == 0 {
                    q_zero()
                } else {
                    Q { n: a.n * b.d + b.n * a.d, d: a.d * b.d }
                }),
        ;
    }
}

/// The difference denotes the value of the cross-multiplied fraction.
pub proof fn lemma_sub_raw(a: Q, b: Q)
    requires
        q_wf(a),
        q_wf(b),
    ensures
        q_wf(q_sub(a, b)),
        q_sub(a, b).n * (a.d * b.d) == (a.n * b.d - b.n * a.d) * q_sub(a, b).d,
{
    let r = q_sub(a, b);
    if a.d == b.d {
        assert(r.n * (a.d * b.d) == (a.n * b.d - b.n * a.d) * r.d) by (nonlinear_arith)
            requires
                a.d == b.d,
                a.d > 0,
                r == (if a.n - b.n == 0 {
                    q_zero()
                } else {
                    Q { n: a.n - b.n, d: a.d }
                }),
        ;
    } else {
        assert(r.n * (a.d * b.d) == (a.n * b.d - b.n * a.d) * r.d && r.d > 0) by (nonlinear_arith)
            requires
                a.d > 0,
                b.d > 0,
                r == (if a.n * b.d - b.n * a.d == 0 {
                    q_zero()
                } else {
                    Q { n: a.n * b.d - b.n * a.d, d: a.d * b.d }
                }),
        ;
    }
}

/// The product denotes the value of the multiplied fractions.
pub proof fn lemma_mul_raw(a: Q, b: Q)
    requires
        q_wf(a),
        q_wf(b),
    ensures
        q_wf(q_mul(a, b)),
        q_mul(a, b).n * (a.d * b.d) == (a.n * b.n) * q_mul(a, b).d,
{
    let r = q_mul(a, b);
    assert(r.n * (a.d * b.d) == (a.n * b.n) * r.d && r.d > 0) by (nonlinear_arith)
        requires
            a.d > 0,
            b.d > 0,
            r == (if a.n * b.n == 0 {
                q_zero()
            } else {
                Q { n: a.n * b.n, d: a.d * b.d }
            }),
    ;
}

/// The quotient denotes the value of the fraction with divisor and dividend
/// cross-multiplied.
pub proof fn lemma_div_raw(a: Q, b: Q)
    requires
        q_wf(a),
        q_wf(b),
        b.n != 0,
    ensures
        q_wf(q_div(a, b)),
        q_div(a, b).n * (a.d * b.n) == (a.n * b.d) * q_div(a, b).d,
{
    let r = q_div(a, b);
    if b.n > 0 {
        assert(r.n * (a.d * b.n) == (a.n * b.d) * r.d && r.d > 0) by (nonlinear_arith)
            requires
                a.d > 0,
                b.d > 0,
                b.n > 0,
                r == (if a.n * b.d == 0 {
                    q_zero()
                } else {
                    Q { n: a.n * b.d, d: a.d * b.n }
                }),
        ;
    } else {
        assert(r.n * (a.d * b.n) == (a.n * b.d) * r.d && r.d > 0) by (nonlinear_arith)
            requires
                a.d > 0,
                b.d > 0,
                b.n < 0,
                r == (if -(a.n * b.d) == 0 {
                    q_zero()
                } else {
                    Q { n: -(a.n * b.d), d: -(a.d * b.n) }
                }),
        ;
    }
}

/// Equal products with a positive common factor have equal cofactors.
pub(crate) proof fn lemma_cancel(x: int, y: int, c: int)
    by (nonlinear_arith)
    requires
        x * c == y * c,
        c != 0,
    ensures
        x == y,
{
}

/// Subtracting and then adding the same value gives back the original, as an
/// exact rational identity.
pub proof fn lemma_add_sub_cancel(v: Q, m: Q)
    requires
        q_wf(v),
        q_wf(m),
    ensures
        q_wf(q_add(q_sub(v, m), m)),
        q_eq(q_add(q_sub(v, m), m), v),
{
    broadcast use vstd::arithmetic::mul::group_mul_properties;

    let d = q_sub(v, m);
    let r = q_add(d, m);
    lemma_sub_raw(v, m);
    lemma_add_raw(d, m);
    let c = d.d * m.d * m.d;
    assert((r.n * (d.d * m.d)) * (v.d * m.d) == ((d.n * m.d + m.n * d.d) * r.d) * (v.d * m.d));
    assert(((d.n * m.d + m.n * d.d) * r.d) * (v.d * m.d) == (d.n * (v.d * m.d)) * (m.d * r.d) + (
    m.n * v.d) * (d.d * m.d * r.d));
    assert((d.n * (v.d * m.d)) * (m.d * r.d) == ((v.n * m.d - m.n * v.d) * d.d) * (m.d * r.d));
    assert(((v.n * m.d - m.n * v.d) * d.d) * (m.d * r.d) + (m.n * v.d) * (d.d * m.d * r.d) == (v.n
        * r.d) * (d.d * m.d * m.d));
    assert((r.n * (d.d * m.d)) * (v.d * m.d) == (r.n * v.d) * (d.d * m.d * m.d));
    assert((r.n * v.d) * c == (v.n * r.d) * c);
    assert(c > 0) by (nonlinear_arith)
        requires
            d.d > 0,
            m.d > 0,
            c == d.d * m.d * m.d,
    ;
    lemma_cancel(r.n * v.d, v.n * r.d, c);
}

/// Adding the same value to equal values gives equal values.
pub proof fn lemma_add_congruence_left(p: Q, d: Q, m: Q)
    requires
        q_wf(p),
        q_wf(d),
        q_wf(m),
        q_eq(p, d),
    ensures
        q_eq(q_add(p, m), q_add(d, m)),
{
    broadcast use vstd::arithmetic::mul::group_mul_properties;

    let r = q_add(p, m);
    let r2 = q_add(d, m);
    lemma_add_raw(p, m);
    lemma_add_raw(d, m);
    let c = p.d * m.d * d.d * m.d;
    assert((r.n * (p.d * m.d)) * (d.d * m.d * r2.d) == ((p.n * m.d + m.n * p.d) * r.d) * (d.d * m.d
        * r2.d));
    assert(((p.n * m.d + m.n * p.d) * r.d) * (d.d * m.d * r2.d) == (p.n * d.d) * (m.d * m.d * r.d
        * r2.d) + m.n * (p.d * d.d * m.d * r.d * r2.d));
    assert((p.n * d.d) * (m.d * m.d * r.d * r2.d) == (d.n * p.d) * (m.d * m.d * r.d * r2.d));
    assert((d.n * p.d) * (m.d * m.d * r.d * r2.d) + m.n * (p.d * d.d * m.d * r.d * r2.d) == ((d.n
        * m.d + m.n * d.d) * r2.d) * (p.d * m.d * r.d));
    assert(((d.n * m.d + m.n * d.d) * r2.d) * (p.d * m.d * r.d) == (r2.n * (d.d * m.d)) * (p.d
        * m.d * r.d));
    assert((r.n * (p.d * m.d)) * (d.d * m.d * r2.d) == (r.n * r2.d) * c);
    assert((r2.n * (d.d * m.d)) * (p.d * m.d * r.d) == (r2.n * r.d) * c);
    assert((r.n * r2.d) * c == (r2.n * r.d) * c);
    assert(c > 0) by (nonlinear_arith)
        requires
            p.d > 0,
            m.d > 0,
            d.d > 0,
            c == p.d * m.d * d.d * m.d,
    ;
    lemma_cancel(r.n * r2.d, r2.n * r.d, c);
}

/// Dividing and then multiplying by the same nonzero value gives back the
/// original, as an exact rational identity.
pub proof fn lemma_mul_div_cancel(a: Q, s: Q)
    requires
        q_wf(a),
        q_wf(s),
        s.n != 0,
    ensures
        q_wf(q_mul(q_div(a, s), s)),
        q_eq(q_mul(q_div(a, s), s), a),
{
    broadcast use vstd::arithmetic::mul::group_mul_properties;

    let t = q_div(a, s);
    let p = q_mul(t, s);
    lemma_div_raw(a, s);
    lemma_mul_raw(t, s);
    let c = t.d * s.d * s.n;
    assert((p.n * (t.d * s.d)) * (a.d * s.n) == ((t.n * s.n) * p.d) * (a.d * s.n));
    assert(((t.n * s.n) * p.d) * (a.d * s.n) == (t.n * (a.d * s.n)) * (s.n * p.d));
    assert((t.n * (a.d * s.n)) * (s.n * p.d) == ((a.n * s.d) * t.d) * (s.n * p.d));
    assert(((a.n * s.d) * t.d) * (s.n * p.d) == (a.n * p.d) * (t.d * s.d * s.n));
    assert((p.n * (t.d * s.d)) * (a.d * s.n) == (p.n * a.d) * (t.d * s.d * s.n));
    assert((p.n * a.d) * c == (a.n * p.d) * c);
    assert(c != 0) by (nonlinear_arith)
        requires
            t.d > 0,
            s.d > 0,
            s.n != 0,
            c == t.d * s.d * s.n,
    ;
    lemma_cancel(p.n * a.d, a.n * p.d, c);
}

} // verus!
