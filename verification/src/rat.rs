//! Exact rational numbers with a positive denominator.
//!
//! Comparisons are verified directly (cross multiplication in 128-bit
//! arithmetic). Addition calls into `num_rational`, which also brings the
//! result back to lowest terms; that call is the trusted item of this
//! module, and its contract pins the exact value of the result by cross
//! multiplication.

use vstd::prelude::*;

verus! {

/// Operands of the trusted rational operations stay within this bound so
/// that the 128-bit arithmetic inside `num_rational` cannot overflow.
pub const RAT_BOUND: i64 = 0x4000_0000_0000_0000;

/// The rational number `num / den`, exact, with `den > 0`.
#[derive(Debug, Clone, Copy, PartialEq, Eq, Structural)]
pub struct Rational {
    pub num: i64,
    pub den: i64,
}

impl Rational {
    /// A rational is well formed when its denominator is positive.
    pub open spec fn wf(self) -> bool {
        self.den > 0
    }

    /// Both parts are small enough for the trusted arithmetic.
    pub open spec fn bounded(self) -> bool {
        -RAT_BOUND < self.num < RAT_BOUND && 0 < self.den < RAT_BOUND
    }

    /// `self` and `other` denote the same rational value.
    pub open spec fn eq_spec(self, other: Rational) -> bool {
        self.num * other.den == other.num * self.den
    }

    /// The value of `self` is at most the value of `other`
    /// (for well-formed operands).
    pub open spec fn le_spec(self, other: Rational) -> bool {
        self.num * other.den <= other.num * self.den
    }

    /// The value of `self` is strictly below the value of `other`.
    pub open spec fn lt_spec(self, other: Rational) -> bool {
        self.num * other.den < other.num * self.den
    }

    /// `self` denotes exactly the fraction `num / den`.
    pub open spec fn is_frac(self, num: int, den: int) -> bool {
        self.num * den == num * self.den
    }

    pub fn new(num: i64, den: i64) -> (r: Rational)
        requires
            den > 0,
        ensures
            r.wf(),
            r == (Rational { num, den }),
    {
        Rational { num, den }
    }

    pub fn from_int(num: i64) -> (r: Rational)
        ensures
            r.wf(),
            r == (Rational { num, den: 1i64 }),
    {
        Rational { num, den: 1 }
    }

    /// Value equality: `a/b == c/d` iff `a*d == c*b`.
    pub fn eq_value(&self, other: &Rational) -> (r: bool)
        requires
            self.wf(),
            other.wf(),
        ensures
            r == self.eq_spec(*other),
    {
        mul_wide(self.num, other.den) == mul_wide(other.num, self.den)
    }

    pub fn le(&self, other: &Rational) -> (r: bool)
        requires
            self.wf(),
            other.wf(),
        ensures
            r == self.le_spec(*other),
    {
        mul_wide(self.num, other.den) <= mul_wide(other.num, self.den)
    }

    pub fn lt(&self, other: &Rational) -> (r: bool)
        requires
            self.wf(),
            other.wf(),
        ensures
            r == self.lt_spec(*other),
    {
        mul_wide(self.num, other.den) < mul_wide(other.num, self.den)
    }
}

/// The product of two 64-bit integers, computed without overflow in
/// 128-bit arithmetic.
fn mul_wide(a: i64, b: i64) -> (r: i128)
    ensures
        r == a as int * b as int,
{
    proof {
        assert(a as int * b as int <= 0x40000000000000000000000000000000int
            && -0x40000000000000000000000000000000int <= a as int * b as int)
            by (nonlinear_arith)
            requires
                -0x8000_0000_0000_0000 <= a as int <= 0x7fff_ffff_ffff_ffff,
                -0x8000_0000_0000_0000 <= b as int <= 0x7fff_ffff_ffff_ffff,
        ;
    }
    (a as i128) * (b as i128)
}

/// Relies on `num_rational::Ratio::<i128>::new` and its `Add` impl: the sum
/// of `a/b` and `c/d` is the exact rational `(a*d + c*b) / (b*d)`, returned
/// in lowest terms with a positive denominator. Lowest terms means the
/// smallest positive denominator among all fractions equal to the sum, which
/// is how the second `Some` clause states it. `None` comes exactly when the
/// reduced parts do not fit in `i64`; since the reduced denominator divides
/// (and the reduced numerator's magnitude bounds from below) those of every
/// equal fraction, no well-formed `Rational` denotes the sum then, which is
/// what the `None` clause states.
#[verifier::external_body]
pub(crate) fn rat_add(a: &Rational, b: &Rational) -> (r: Option<Rational>)
    requires
        a.wf(),
        b.wf(),
        a.bounded(),
        b.bounded(),
    ensures
        match r {
            Some(t) => t.wf() && t.is_frac(a.num * b.den + b.num * a.den, a.den * b.den) && (
            forall|u: Rational|
                u.wf() && #[trigger] u.is_frac(a.num * b.den + b.num * a.den, a.den * b.den)
                    ==> t.den <= u.den),
            None => forall|u: Rational|
                u.wf() ==> !#[trigger] u.is_frac(a.num * b.den + b.num * a.den, a.den * b.den),
        },
{
    let x = num_rational::Ratio::new(a.num as i128, a.den as i128);
    let y = num_rational::Ratio::new(b.num as i128, b.den as i128);
    let s = x + y;
    let num: i64 = (*s.numer()).try_into().ok()?;
    let den: i64 = (*s.denom()).try_into().ok()?;
    Some(Rational { num, den })
}

/// Two well-formed rationals denoting the same fraction `n / d` denote each
/// other: their cross products agree, and the one with the smaller
/// denominator has the smaller magnitude and the same sign.
pub proof fn lemma_same_value(t: Rational, u: Rational, n: int, d: int)
    requires
        t.wf(),
        u.wf(),
        d > 0,
        t.is_frac(n, d),
        u.is_frac(n, d),
        t.den <= u.den,
    ensures
        u.num * t.den == t.num * u.den,
        t.num >= RAT_BOUND ==> u.num >= RAT_BOUND,
        t.num <= -RAT_BOUND ==> u.num <= -RAT_BOUND,
{
    assert(u.num * t.den == t.num * u.den) by (nonlinear_arith)
        requires
            t.num * d == n * t.den,
            u.num * d == n * u.den,
            d > 0,
    ;
    assert(t.num >= RAT_BOUND ==> u.num >= RAT_BOUND) by (nonlinear_arith)
        requires
            u.num * t.den == t.num * u.den,
            0 < t.den <= u.den,
    ;
    assert(t.num <= -RAT_BOUND ==> u.num <= -RAT_BOUND) by (nonlinear_arith)
        requires
            u.num * t.den == t.num * u.den,
            0 < t.den <= u.den,
    ;
}

} // verus!
