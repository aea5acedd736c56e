//! Exact rational arithmetic for exchange rates.
//!
//! Quote prices are fixed-point integers, so every rate the pipeline
//! derives is a ratio of two machine integers. Rates taken straight from
//! one quote fit in a [`Ratio`] (32-bit parts); a two-hop implied rate is
//! the product of two such ratios and fits in a [`CrossRate`] (64-bit
//! parts). The ghost type [`Rat`] gives both their mathematical value,
//! and all comparisons are specified by cross-multiplication, which the
//! executable code evaluates exactly in 128-bit arithmetic.

use vstd::prelude::*;

verus! {

/// The mathematical value of a stored rate: a pair of unbounded integers
/// read as the fraction `num / den`.
pub ghost struct Rat {
    pub num: int,
    pub den: int,
}

/// A rational is meaningful as a (non-negative) rate when its denominator
/// is positive.
pub open spec fn rat_wf(a: Rat) -> bool {
    a.den > 0 && a.num >= 0
}

/// `a <= b`, by cross-multiplication; assumes positive denominators.
pub open spec fn rat_le(a: Rat, b: Rat) -> bool {
    a.num * b.den <= b.num * a.den
}

/// `a >= b`, by cross-multiplication; assumes positive denominators.
pub open spec fn rat_ge(a: Rat, b: Rat) -> bool {
    a.num * b.den >= b.num * a.den
}

/// `a == b` as fractions, by cross-multiplication.
pub open spec fn rat_eq(a: Rat, b: Rat) -> bool {
    a.num * b.den == b.num * a.den
}

pub open spec fn rat_mul(a: Rat, b: Rat) -> Rat {
    Rat { num: a.num * b.num, den: a.den * b.den }
}

pub open spec fn rat_recip(a: Rat) -> Rat {
    Rat { num: a.den, den: a.num }
}

pub open spec fn rat_div(a: Rat, b: Rat) -> Rat {
    rat_mul(a, rat_recip(b))
}

pub open spec fn rat_one() -> Rat {
    Rat { num: 1, den: 1 }
}

/// A rate observed directly in one quote: both parts are fixed-point
/// prices (or one of them the fixed-point scale), hence 32 bits.
#[derive(Clone, Copy, Debug, PartialEq, Eq, Structural)]
pub struct Ratio {
    pub num: u32,
    pub den: u32,
}

impl View for Ratio {
    type V = Rat;

    open spec fn view(&self) -> Rat {
        Rat { num: self.num as int, den: self.den as int }
    }
}

impl Ratio {
    pub open spec fn wf(&self) -> bool {
        self.den > 0
    }
}

/// A two-hop implied rate: the product of two quote-level ratios, hence
/// 64 bits per part.
#[derive(Clone, Copy, Debug, PartialEq, Eq, Structural)]
pub struct CrossRate {
    pub num: u64,
    pub den: u64,
}

impl View for CrossRate {
    type V = Rat;

    open spec fn view(&self) -> Rat {
        Rat { num: self.num as int, den: self.den as int }
    }
}

impl CrossRate {
    pub open spec fn wf(&self) -> bool {
        self.den > 0
    }
}

/// The exact product of two quote-level ratios; never overflows because
/// each part is at most `u32::MAX`.
pub fn cross_mul(a: &Ratio, b: &Ratio) -> (c: CrossRate)
    ensures
        c@ == rat_mul(a@, b@),
        a.wf() && b.wf() ==> c.wf(),
        a.num > 0 && b.num > 0 ==> c.num > 0,
{
    proof {
        assert((a.num as int) * (b.num as int) <= u64::MAX && (a.den as int) * (b.den as int)
            <= u64::MAX) by (nonlinear_arith)
            requires
                a.num <= u32::MAX,
                b.num <= u32::MAX,
                a.den <= u32::MAX,
                b.den <= u32::MAX,
        ;
        assert(a.den > 0 && b.den > 0 ==> (a.den as int) * (b.den as int) > 0) by (nonlinear_arith);
        assert(a.num > 0 && b.num > 0 ==> (a.num as int) * (b.num as int) > 0) by (nonlinear_arith);
    }
    CrossRate { num: (a.num as u64) * (b.num as u64), den: (a.den as u64) * (b.den as u64) }
}

/// Exact comparison `a >= b` of two implied rates, by cross-multiplication
/// in 128-bit arithmetic.
pub fn cross_ge(a: &CrossRate, b: &CrossRate) -> (r: bool)
    ensures
        r == rat_ge(a@, b@),
{
    proof {
        assert((a.num as int) * (b.den as int) <= u128::MAX && (b.num as int) * (a.den as int)
            <= u128::MAX) by (nonlinear_arith)
            requires
                a.num <= u64::MAX,
                b.num <= u64::MAX,
                a.den <= u64::MAX,
                b.den <= u64::MAX,
        ;
    }
    (a.num as u128) * (b.den as u128) >= (b.num as u128) * (a.den as u128)
}

/// `>=` is transitive on rationals with positive denominators.
pub proof fn lemma_rat_ge_trans(a: Rat, b: Rat, c: Rat)
    by (nonlinear_arith)
    requires
        a.den > 0,
        b.den > 0,
        c.den > 0,
        rat_ge(a, b),
        rat_ge(b, c),
    ensures
        rat_ge(a, c),
{
}

/// The product of two positive rates is positive: composing two observed
/// rates can never flip a sign.
pub proof fn lemma_rat_mul_positive(a: Rat, b: Rat)
    by (nonlinear_arith)
    requires
        a.num > 0,
        a.den > 0,
        b.num > 0,
        b.den > 0,
    ensures
        rat_mul(a, b).num > 0,
        rat_mul(a, b).den > 0,
{
}

/// A positive rational times its reciprocal is exactly one.
pub proof fn lemma_mul_recip_is_one(a: Rat)
    by (nonlinear_arith)
    requires
        a.num > 0,
        a.den > 0,
    ensures
        rat_eq(rat_mul(a, rat_recip(a)), rat_one()),
{
}

} // verus!
