//! Exact rational arithmetic for the tableau entries.
//!
//! A tableau entry is a fraction of two `i32` values with a positive
//! denominator. The specification-level counterpart is `Ratio`, a pair of
//! unbounded integers; every executable operation states exactly which
//! `Ratio` it produces, and returns `None` when that value does not fit
//! back into `i32` components.

use vstd::prelude::*;

verus! {

/// A rational number at the specification level: the value `n / d`.
/// Only well-formed ratios (`d > 0`) stand for rational numbers.
pub ghost struct Ratio {
    pub n: int,
    pub d: int,
}

pub open spec fn ratio_wf(r: Ratio) -> bool {
    r.d > 0
}

pub open spec fn ratio_zero() -> Ratio {
    Ratio { n: 0, d: 1 }
}

pub open spec fn ratio_one() -> Ratio {
    Ratio { n: 1, d: 1 }
}

/// Equality of the represented rational numbers (cross multiplication).
pub open spec fn ratio_eq(a: Ratio, b: Ratio) -> bool {
    a.n * b.d == b.n * a.d
}

/// `a < b` as rational numbers; meaningful only for well-formed ratios.
pub open spec fn ratio_lt(a: Ratio, b: Ratio) -> bool {
    a.n * b.d < b.n * a.d
}

pub open spec fn ratio_add(a: Ratio, b: Ratio) -> Ratio {
    Ratio { n: a.n * b.d + b.n * a.d, d: a.d * b.d }
}

pub open spec fn ratio_mul(a: Ratio, b: Ratio) -> Ratio {
    Ratio { n: a.n * b.n, d: a.d * b.d }
}

pub open spec fn ratio_neg(a: Ratio) -> Ratio {
    Ratio { n: -a.n, d: a.d }
}

/// `a / b`, with the sign moved into the numerator so that a well-formed
/// argument pair (`b` non-zero) yields a well-formed result.
pub open spec fn ratio_div(a: Ratio, b: Ratio) -> Ratio {
    if a.d * b.n < 0 {
        Ratio { n: -(a.n * b.d), d: -(a.d * b.n) }
    } else {
        Ratio { n: a.n * b.d, d: a.d * b.n }
    }
}

pub open spec fn in_i32(x: int) -> bool {
    i32::MIN <= x <= i32::MAX
}

/// Whether a ratio can be stored in a `Rat` without change.
pub open spec fn ratio_fits(r: Ratio) -> bool {
    in_i32(r.n) && in_i32(r.d)
}

/// An exact rational tableau entry: `num / den` with `den > 0`.
#[derive(Clone, Copy, Debug)]
pub struct Rat {
    pub num: i32,
    pub den: i32,
}

impl View for Rat {
    type V = Ratio;

    open spec fn view(&self) -> Ratio {
        Ratio { n: self.num as int, d: self.den as int }
    }
}

impl Rat {
    /// Well-formedness: the denominator is positive.
    pub open spec fn wf(self) -> bool {
        ratio_wf(self@)
    }

    pub fn new(num: i32, den: i32) -> (r: Rat)
        requires
            den > 0,
        ensures
            r@ == (Ratio { n: num as int, d: den as int }),
            r.wf(),
    {
        Rat { num, den }
    }

    pub fn from_int(num: i32) -> (r: Rat)
        ensures
            r@ == (Ratio { n: num as int, d: 1 }),
            r.wf(),
    {
        Rat { num, den: 1 }
    }

    pub fn zero() -> (r: Rat)
        ensures
            r@ == ratio_zero(),
            r.wf(),
    {
        Rat { num: 0, den: 1 }
    }

    pub fn one() -> (r: Rat)
        ensures
            r@ == ratio_one(),
            r.wf(),
    {
        Rat { num: 1, den: 1 }
    }

    pub fn is_zero(self) -> (r: bool)
        ensures
            r == ratio_eq(self@, ratio_zero()),
    {
        self.num == 0
    }

    pub fn is_one(self) -> (r: bool)
        ensures
            r == ratio_eq(self@, ratio_one()),
    {
        proof {
            assert(self@.n * 1 == self@.n);
            assert(1 * self@.d == self@.d);
        }
        self.num == self.den
    }

    pub fn is_negative(self) -> (r: bool)
        requires
            self.wf(),
        ensures
            r == ratio_lt(self@, ratio_zero()),
    {
        self.num < 0
    }

    pub fn is_positive(self) -> (r: bool)
        requires
            self.wf(),
        ensures
            r == ratio_lt(ratio_zero(), self@),
    {
        self.num > 0
    }

    /// Exact equality of the represented rational numbers.
    pub fn equals(self, other: Rat) -> (r: bool)
        ensures
            r == ratio_eq(self@, other@),
    {
        proof {
            lemma_i32_product_bounds(self.num as int, other.den as int);
            lemma_i32_product_bounds(other.num as int, self.den as int);
        }
        (self.num as i64) * (other.den as i64) == (other.num as i64) * (self.den as i64)
    }

    /// Exact `<` on the represented rational numbers.
    pub fn lt(self, other: Rat) -> (r: bool)
        requires
            self.wf(),
            other.wf(),
        ensures
            r == ratio_lt(self@, other@),
    {
        proof {
            lemma_i32_product_bounds(self.num as int, other.den as int);
            lemma_i32_product_bounds(other.num as int, self.den as int);
        }
        (self.num as i64) * (other.den as i64) < (other.num as i64) * (self.den as i64)
    }

    pub fn checked_add(self, other: Rat) -> (r: Option<Rat>)
        requires
            self.wf(),
            other.wf(),
        ensures
            r.is_some() <==> ratio_fits(ratio_add(self@, other@)),
            r.is_some() ==> r.unwrap()@ == ratio_add(self@, other@) && r.unwrap().wf(),
    {
        proof {
            lemma_i32_product_bounds(self.num as int, other.den as int);
            lemma_i32_product_bounds(other.num as int, self.den as int);
            lemma_i32_product_bounds(self.den as int, other.den as int);
            lemma_pos_product_pos(self.den as int, other.den as int);
        }
        let n: i128 = (self.num as i128) * (other.den as i128)
            + (other.num as i128) * (self.den as i128);
        let d: i128 = (self.den as i128) * (other.den as i128);
        if n >= i32::MIN as i128 && n <= i32::MAX as i128 && d <= i32::MAX as i128 {
            Some(Rat { num: n as i32, den: d as i32 })
        } else {
            None
        }
    }

    pub fn checked_mul(self, other: Rat) -> (r: Option<Rat>)
        requires
            self.wf(),
            other.wf(),
        ensures
            r.is_some() <==> ratio_fits(ratio_mul(self@, other@)),
            r.is_some() ==> r.unwrap()@ == ratio_mul(self@, other@) && r.unwrap().wf(),
    {
        proof {
            lemma_i32_product_bounds(self.num as int, other.num as int);
            lemma_i32_product_bounds(self.den as int, other.den as int);
            lemma_pos_product_pos(self.den as int, other.den as int);
        }
        let n: i64 = (self.num as i64) * (other.num as i64);
        let d: i64 = (self.den as i64) * (other.den as i64);
        if n >= i32::MIN as i64 && n <= i32::MAX as i64 && d <= i32::MAX as i64 {
            Some(Rat { num: n as i32, den: d as i32 })
        } else {
            None
        }
    }

    pub fn checked_neg(self) -> (r: Option<Rat>)
        requires
            self.wf(),
        ensures
            r.is_some() <==> ratio_fits(ratio_neg(self@)),
            r.is_some() ==> r.unwrap()@ == ratio_neg(self@) && r.unwrap().wf(),
    {
        if self.num == i32::MIN {
            None
        } else {
            Some(Rat { num: -self.num, den: self.den })
        }
    }

    pub fn checked_div(self, other: Rat) -> (r: Option<Rat>)
        requires
            self.wf(),
            other.wf(),
            other@.n != 0,
        ensures
            r.is_some() <==> ratio_fits(ratio_div(self@, other@)),
            r.is_some() ==> r.unwrap()@ == ratio_div(self@, other@) && r.unwrap().wf(),
    {
        proof {
            lemma_i32_product_bounds(self.num as int, other.den as int);
            lemma_i32_product_bounds(self.den as int, other.num as int);
            lemma_nonzero_product_nonzero(self.den as int, other.num as int);
        }
        let mut n: i64 = (self.num as i64) * (other.den as i64);
        let mut d: i64 = (self.den as i64) * (other.num as i64);
        if d < 0 {
            n = -n;
            d = -d;
        }
        if n >= i32::MIN as i64 && n <= i32::MAX as i64 && d <= i32::MAX as i64 {
            Some(Rat { num: n as i32, den: d as i32 })
        } else {
            None
        }
    }
}

/// Compare `n1 / d1` with `n2 / d2` (as rational numbers, where the four
/// arguments are themselves rationals and both divisors are positive):
/// the result is whether the first quotient is strictly smaller.
pub fn quotient_lt(n1: Rat, d1: Rat, n2: Rat, d2: Rat) -> (r: bool)
    requires
        n1.wf(),
        d1.wf(),
        n2.wf(),
        d2.wf(),
        d1@.n > 0,
        d2@.n > 0,
    ensures
        r == ratio_lt(ratio_div(n1@, d1@), ratio_div(n2@, d2@)),
{
    proof {
        lemma_i32_product_bounds(n1.num as int, d1.den as int);
        lemma_i32_product_bounds(n1.den as int, d1.num as int);
        lemma_i32_product_bounds(n2.num as int, d2.den as int);
        lemma_i32_product_bounds(n2.den as int, d2.num as int);
        lemma_pos_product_pos(n1.den as int, d1.num as int);
        lemma_pos_product_pos(n2.den as int, d2.num as int);
    }
    let q1n: i64 = (n1.num as i64) * (d1.den as i64);
    let q1d: i64 = (n1.den as i64) * (d1.num as i64);
    let q2n: i64 = (n2.num as i64) * (d2.den as i64);
    let q2d: i64 = (n2.den as i64) * (d2.num as i64);
    proof {
        lemma_i64_product_bounds(q1n as int, q2d as int);
        lemma_i64_product_bounds(q2n as int, q1d as int);
    }
    (q1n as i128) * (q2d as i128) < (q2n as i128) * (q1d as i128)
}

/// Like `quotient_lt`, for equality of the two quotients.
pub fn quotient_eq(n1: Rat, d1: Rat, n2: Rat, d2: Rat) -> (r: bool)
    requires
        n1.wf(),
        d1.wf(),
        n2.wf(),
        d2.wf(),
        d1@.n > 0,
        d2@.n > 0,
    ensures
        r == ratio_eq(ratio_div(n1@, d1@), ratio_div(n2@, d2@)),
{
    proof {
        lemma_i32_product_bounds(n1.num as int, d1.den as int);
        lemma_i32_product_bounds(n1.den as int, d1.num as int);
        lemma_i32_product_bounds(n2.num as int, d2.den as int);
        lemma_i32_product_bounds(n2.den as int, d2.num as int);
        lemma_pos_product_pos(n1.den as int, d1.num as int);
        lemma_pos_product_pos(n2.den as int, d2.num as int);
    }
    let q1n: i64 = (n1.num as i64) * (d1.den as i64);
    let q1d: i64 = (n1.den as i64) * (d1.num as i64);
    let q2n: i64 = (n2.num as i64) * (d2.den as i64);
    let q2d: i64 = (n2.den as i64) * (d2.num as i64);
    proof {
        lemma_i64_product_bounds(q1n as int, q2d as int);
        lemma_i64_product_bounds(q2n as int, q1d as int);
    }
    (q1n as i128) * (q2d as i128) == (q2n as i128) * (q1d as i128)
}

proof fn lemma_i32_product_bounds(a: int, b: int)
    requires
        i32::MIN <= a <= i32::MAX,
        i32::MIN <= b <= i32::MAX,
    ensures
        -0x4000_0000_0000_0000 <= a * b <= 0x4000_0000_0000_0000,
{
    assert(-0x4000_0000_0000_0000 <= a * b <= 0x4000_0000_0000_0000) by (nonlinear_arith)
        requires
            -0x8000_0000 <= a <= 0x7fff_ffff,
            -0x8000_0000 <= b <= 0x7fff_ffff,
    ;
}

proof fn lemma_i64_product_bounds(a: int, b: int)
    requires
        -0x4000_0000_0000_0000 <= a <= 0x4000_0000_0000_0000,
        -0x4000_0000_0000_0000 <= b <= 0x4000_0000_0000_0000,
    ensures
        -0x1000_0000_0000_0000_0000_0000_0000_0000
            <= a * b <= 0x1000_0000_0000_0000_0000_0000_0000_0000,
{
    assert(-0x1000_0000_0000_0000_0000_0000_0000_0000
        <= a * b <= 0x1000_0000_0000_0000_0000_0000_0000_0000) by (nonlinear_arith)
        requires
            -0x4000_0000_0000_0000 <= a <= 0x4000_0000_0000_0000,
            -0x4000_0000_0000_0000 <= b <= 0x4000_0000_0000_0000,
    ;
}

pub proof fn lemma_pos_product_pos(a: int, b: int)
    requires
        a > 0,
        b > 0,
    ensures
        a * b > 0,
{
    assert(a * b > 0) by (nonlinear_arith)
        requires
            a > 0,
            b > 0,
    ;
}

pub proof fn lemma_nonzero_product_nonzero(a: int, b: int)
    requires
        a != 0,
        b != 0,
    ensures
        a * b != 0,
{
    assert(a * b != 0) by (nonlinear_arith)
        requires
            a != 0,
            b != 0,
    ;
}

/// Division of well-formed ratios by a non-zero ratio is well-formed.
pub proof fn lemma_ratio_div_wf(a: Ratio, b: Ratio)
    requires
        ratio_wf(a),
        ratio_wf(b),
        b.n != 0,
    ensures
        ratio_wf(ratio_div(a, b)),
{
    lemma_nonzero_product_nonzero(a.d, b.n);
}

/// Dividing by one changes nothing.
pub proof fn lemma_ratio_div_one(a: Ratio)
    requires
        ratio_wf(a),
    ensures
        ratio_div(a, ratio_one()) == a,
{
}

/// Transitivity of `<` on well-formed ratios.
pub proof fn lemma_ratio_lt_trans(a: Ratio, b: Ratio, c: Ratio)
    requires
        ratio_wf(a),
        ratio_wf(b),
        ratio_wf(c),
        ratio_lt(a, b),
        ratio_lt(b, c),
    ensures
        ratio_lt(a, c),
{
    assert(a.n * c.d < c.n * a.d) by (nonlinear_arith)
        requires
            a.d > 0,
            b.d > 0,
            c.d > 0,
            a.n * b.d < b.n * a.d,
            b.n * c.d < c.n * b.d,
    ;
}

/// A ratio equal to a smaller one is itself smaller.
pub proof fn lemma_ratio_eq_lt_trans(a: Ratio, b: Ratio, c: Ratio)
    requires
        ratio_wf(a),
        ratio_wf(b),
        ratio_wf(c),
        ratio_eq(a, b),
        ratio_lt(b, c),
    ensures
        ratio_lt(a, c),
{
    assert(a.n * c.d < c.n * a.d) by (nonlinear_arith)
        requires
            a.d > 0,
            b.d > 0,
            c.d > 0,
            a.n * b.d == b.n * a.d,
            b.n * c.d < c.n * b.d,
    ;
}

/// A ratio smaller than one of two equal ratios is smaller than the other.
pub proof fn lemma_ratio_lt_eq_trans(a: Ratio, b: Ratio, c: Ratio)
    requires
        ratio_wf(a),
        ratio_wf(b),
        ratio_wf(c),
        ratio_lt(a, b),
        ratio_eq(b, c),
    ensures
        ratio_lt(a, c),
{
    assert(a.n * c.d < c.n * a.d) by (nonlinear_arith)
        requires
            a.d > 0,
            b.d > 0,
            c.d > 0,
            a.n * b.d < b.n * a.d,
            b.n * c.d == c.n * b.d,
    ;
}

/// Transitivity of equality on well-formed ratios.
pub proof fn lemma_ratio_eq_trans(a: Ratio, b: Ratio, c: Ratio)
    requires
        ratio_wf(a),
        ratio_wf(b),
        ratio_wf(c),
        ratio_eq(a, b),
        ratio_eq(b, c),
    ensures
        ratio_eq(a, c),
{
    assert(a.n * c.d == c.n * a.d) by (nonlinear_arith)
        requires
            a.d > 0,
            b.d > 0,
            c.d > 0,
            a.n * b.d == b.n * a.d,
            b.n * c.d == c.n * b.d,
    ;
}

} // verus!
