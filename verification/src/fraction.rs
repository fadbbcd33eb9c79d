//! Fractions.

use vstd::prelude::*;

verus! {

/// A fraction.
#[derive(Clone, Copy, Debug, PartialEq, Eq, Structural)]
pub struct Fraction {
    pub numerator: u64,
    pub denominator: u64,
}

impl Fraction {
    /// Whether this is at least `other`, the denominators being above zero.
    pub open spec fn at_least(&self, other: Fraction) -> bool {
        self.numerator * other.denominator >= other.numerator * self.denominator
    }

    /// Whether this is at least `other`, the denominators being above zero.
    pub fn reaches(&self, other: Fraction) -> (r: bool)
        ensures
            r == self.at_least(other),
    {
        proof {
            lemma_product_fits(self.numerator, other.denominator);
            lemma_product_fits(other.numerator, self.denominator);
        }
        (self.numerator as u128) * (other.denominator as u128) >= (other.numerator as u128) * (
        self.denominator as u128)
    }
}

proof fn lemma_product_fits(a: u64, b: u64)
    ensures
        0 <= a * b <= u128::MAX,
{
    assert(0 <= a * b <= 0xFFFF_FFFF_FFFF_FFFF * 0xFFFF_FFFF_FFFF_FFFF) by (nonlinear_arith)
        requires
            0 <= a <= 0xFFFF_FFFF_FFFF_FFFF,
            0 <= b <= 0xFFFF_FFFF_FFFF_FFFF,
    ;
}

/// Fractions of one denominator go by their numerators, and a fraction is as large as itself,
/// however it is expanded.
pub proof fn law_fractions_go_by_their_numerators(n: u64, m: u64, d: u64, factor: u64)
    requires
        d > 0,
        n * factor <= u64::MAX,
        d * factor <= u64::MAX,
    ensures
        (Fraction { numerator: n, denominator: d }).at_least(
            Fraction { numerator: m, denominator: d },
        ) <==> n >= m,
        (Fraction { numerator: n, denominator: d }).at_least(
            Fraction { numerator: (n * factor) as u64, denominator: (d * factor) as u64 },
        ),
        (Fraction { numerator: (n * factor) as u64, denominator: (d * factor) as u64 }).at_least(
            Fraction { numerator: n, denominator: d },
        ),
{
    assert(n * d >= m * d <==> n >= m) by (nonlinear_arith)
        requires
            d > 0,
    ;
    assert(n * (d * factor) == (n * factor) * d) by (nonlinear_arith);
}

} // verus!
