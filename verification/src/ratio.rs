//! Exact fractions, used for fitness values and for probabilities.
use vstd::prelude::*;

verus! {

/// The fraction `num / den`.
///
/// A fraction with `den == 0` stands for "no value": it compares neither
/// above nor below anything and, as a probability, never fires.
#[derive(Clone, Copy, Debug, PartialEq, Eq, Structural)]
pub struct Ratio {
    pub num: u64,
    pub den: u64,
}

impl Ratio {
    /// The denominator is positive, so the fraction denotes a number.
    pub open spec fn wf(self) -> bool {
        self.den > 0
    }

    /// The fraction denotes a number in `[0, 1]`.
    pub open spec fn in_unit(self) -> bool {
        self.den > 0 && self.num <= self.den
    }

    /// `self > other` as numbers.
    pub open spec fn spec_gt(self, other: Ratio) -> bool {
        self.den > 0 && other.den > 0 && self.num * other.den > other.num * self.den
    }

    /// `self >= other` as numbers.
    pub open spec fn spec_ge(self, other: Ratio) -> bool {
        self.den > 0 && other.den > 0 && self.num * other.den >= other.num * self.den
    }

    /// `self` and `other` denote the same number.
    pub open spec fn same_value(self, other: Ratio) -> bool {
        self.den > 0 && other.den > 0 && self.num * other.den == other.num * self.den
    }

    /// As a probability: the event happens on every draw.
    pub open spec fn is_certain(self) -> bool {
        self.den > 0 && self.num >= self.den
    }

    /// As a probability: the event happens on no draw.
    pub open spec fn is_impossible(self) -> bool {
        self.den == 0 || self.num == 0
    }

    /// The fraction `num / den`.
    pub fn new(num: u64, den: u64) -> (r: Ratio)
        ensures
            r == (Ratio { num, den }),
    {
        Ratio { num, den }
    }

    /// The number 0.
    pub fn zero() -> (r: Ratio)
        ensures
            r == (Ratio { num: 0, den: 1 }),
    {
        Ratio { num: 0, den: 1 }
    }

    /// The number 1.
    pub fn one() -> (r: Ratio)
        ensures
            r == (Ratio { num: 1, den: 1 }),
    {
        Ratio { num: 1, den: 1 }
    }

    /// Whether `self > other` as numbers, computed without rounding.
    pub fn gt(&self, other: &Ratio) -> (r: bool)
        ensures
            r == self.spec_gt(*other),
    {
        if self.den == 0 || other.den == 0 {
            return false;
        }
        assert(self.num * other.den <= 0xFFFF_FFFF_FFFF_FFFF * 0xFFFF_FFFF_FFFF_FFFF)
            by (nonlinear_arith)
            requires
                0 <= self.num <= 0xFFFF_FFFF_FFFF_FFFF,
                0 <= other.den <= 0xFFFF_FFFF_FFFF_FFFF,
        ;
        assert(other.num * self.den <= 0xFFFF_FFFF_FFFF_FFFF * 0xFFFF_FFFF_FFFF_FFFF)
            by (nonlinear_arith)
            requires
                0 <= other.num <= 0xFFFF_FFFF_FFFF_FFFF,
                0 <= self.den <= 0xFFFF_FFFF_FFFF_FFFF,
        ;
        let left: u128 = (self.num as u128) * (other.den as u128);
        let right: u128 = (other.num as u128) * (self.den as u128);
        left > right
    }
}

/// How the numbers 0 and 1 compare.
pub proof fn lemma_zero_and_one()
    ensures
        (Ratio { num: 1, den: 1 }).spec_gt(Ratio { num: 0, den: 1 }),
        !(Ratio { num: 1, den: 1 }).spec_gt(Ratio { num: 1, den: 1 }),
        !(Ratio { num: 0, den: 1 }).spec_gt(Ratio { num: 1, den: 1 }),
        !(Ratio { num: 0, den: 1 }).spec_gt(Ratio { num: 0, den: 1 }),
{
    let one = Ratio { num: 1, den: 1 };
    let zero = Ratio { num: 0, den: 1 };
    assert(one.num * zero.den == 1 && zero.num * one.den == 0 && one.num * one.den == 1
        && zero.num * zero.den == 0) by (nonlinear_arith)
        requires
            one.num == 1,
            one.den == 1,
            zero.num == 0,
            zero.den == 1,
    ;
}

/// `>=` on numbers is transitive.
pub proof fn lemma_ge_transitive(a: Ratio, b: Ratio, c: Ratio)
    requires
        a.spec_ge(b),
        b.spec_ge(c),
    ensures
        a.spec_ge(c),
{
    let (an, ad) = (a.num as int, a.den as int);
    let (bn, bd) = (b.num as int, b.den as int);
    let (cn, cd) = (c.num as int, c.den as int);
    assert(an * cd >= cn * ad) by (nonlinear_arith)
        requires
            ad > 0,
            bd > 0,
            cd > 0,
            an >= 0,
            bn >= 0,
            cn >= 0,
            an * bd >= bn * ad,
            bn * cd >= cn * bd,
    {
        assert(an * bd * cd >= bn * ad * cd);
        assert(bn * cd * ad >= cn * bd * ad);
        assert(bn * ad * cd == bn * cd * ad);
        assert(an * cd * bd >= cn * ad * bd);
    }
}

/// `a > b` and `b >= c` give `a > c`.
pub proof fn lemma_gt_ge_transitive(a: Ratio, b: Ratio, c: Ratio)
    requires
        a.spec_gt(b),
        b.spec_ge(c),
    ensures
        a.spec_gt(c),
{
    let (an, ad) = (a.num as int, a.den as int);
    let (bn, bd) = (b.num as int, b.den as int);
    let (cn, cd) = (c.num as int, c.den as int);
    assert(an * cd > cn * ad) by (nonlinear_arith)
        requires
            ad > 0,
            bd > 0,
            cd > 0,
            an >= 0,
            bn >= 0,
            cn >= 0,
            an * bd > bn * ad,
            bn * cd >= cn * bd,
    {
        assert(an * bd * cd > bn * ad * cd);
        assert(bn * cd * ad >= cn * bd * ad);
        assert(bn * ad * cd == bn * cd * ad);
        assert(an * cd * bd > cn * ad * bd);
    }
}

} // verus!
