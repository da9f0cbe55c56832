//! Formulas: what a contract says was computed.

use vstd::prelude::*;

use crate::scalar::{clamped, repeatable, Scalar};

verus! {

/// What a computation does: an arithmetic expression over numbers at hand
/// (`Val`), constants given by their binary32 encoding (`Lit`) and counts.
pub enum Formula<N> {
    Val(N),
    Lit(u32),
    Count(usize),
    Negated(Box<Formula<N>>),
    Magnitude(Box<Formula<N>>),
    SquareRoot(Box<Formula<N>>),
    Sine(Box<Formula<N>>),
    Cosine(Box<Formula<N>>),
    Tangent(Box<Formula<N>>),
    Exponential(Box<Formula<N>>),
    Logarithm(Box<Formula<N>>),
    Plus(Box<Formula<N>>, Box<Formula<N>>),
    Minus(Box<Formula<N>>, Box<Formula<N>>),
    Times(Box<Formula<N>>, Box<Formula<N>>),
    Over(Box<Formula<N>>, Box<Formula<N>>),
    Remainder(Box<Formula<N>>, Box<Formula<N>>),
    Lesser(Box<Formula<N>>, Box<Formula<N>>),
    Greater(Box<Formula<N>>, Box<Formula<N>>),
    Power(Box<Formula<N>>, Box<Formula<N>>),
    Clamp(Box<Formula<N>>, Box<Formula<N>>, Box<Formula<N>>),
}

/// The formula that stands for a number at hand.
pub open spec fn val<N>(x: N) -> Formula<N> {
    Formula::Val(x)
}

/// The formula that stands for the constant with this binary32 encoding.
pub open spec fn lit<N>(bits: u32) -> Formula<N> {
    Formula::Lit(bits)
}

/// The formula that stands for a count.
pub open spec fn count<N>(n: usize) -> Formula<N> {
    Formula::Count(n)
}

impl<N> Formula<N> {
    pub open spec fn plus(self, other: Self) -> Self {
        Formula::Plus(Box::new(self), Box::new(other))
    }

    pub open spec fn minus(self, other: Self) -> Self {
        Formula::Minus(Box::new(self), Box::new(other))
    }

    pub open spec fn times(self, other: Self) -> Self {
        Formula::Times(Box::new(self), Box::new(other))
    }

    pub open spec fn over(self, other: Self) -> Self {
        Formula::Over(Box::new(self), Box::new(other))
    }

    pub open spec fn remainder(self, other: Self) -> Self {
        Formula::Remainder(Box::new(self), Box::new(other))
    }

    pub open spec fn negated(self) -> Self {
        Formula::Negated(Box::new(self))
    }

    pub open spec fn magnitude(self) -> Self {
        Formula::Magnitude(Box::new(self))
    }

    pub open spec fn lesser(self, other: Self) -> Self {
        Formula::Lesser(Box::new(self), Box::new(other))
    }

    pub open spec fn greater(self, other: Self) -> Self {
        Formula::Greater(Box::new(self), Box::new(other))
    }

    pub open spec fn square_root(self) -> Self {
        Formula::SquareRoot(Box::new(self))
    }

    pub open spec fn sine(self) -> Self {
        Formula::Sine(Box::new(self))
    }

    pub open spec fn cosine(self) -> Self {
        Formula::Cosine(Box::new(self))
    }

    pub open spec fn tangent(self) -> Self {
        Formula::Tangent(Box::new(self))
    }

    pub open spec fn exponential(self) -> Self {
        Formula::Exponential(Box::new(self))
    }

    pub open spec fn logarithm(self) -> Self {
        Formula::Logarithm(Box::new(self))
    }

    pub open spec fn power(self, exponent: Self) -> Self {
        Formula::Power(Box::new(self), Box::new(exponent))
    }

    pub open spec fn clamp(self, lo: Self, hi: Self) -> Self {
        Formula::Clamp(Box::new(self), Box::new(lo), Box::new(hi))
    }
}

/// `r` is a value that computing `f` can come out as: each operation of `f`
/// applied to values that its operands came out as.
pub open spec fn evaluates<N: Scalar>(f: Formula<N>, r: N) -> bool
    decreases f,
{
    match f {
        Formula::Val(x) => r == x,
        Formula::Lit(bits) => call_ensures(N::from_bits, (bits,), r),
        Formula::Count(n) => call_ensures(N::from_usize, (n,), r),
        Formula::Negated(a) => exists|x: N| #[trigger]
            call_ensures(N::negated, (x,), r) && evaluates(*a, x),
        Formula::Magnitude(a) => exists|x: N| #[trigger]
            call_ensures(N::magnitude, (x,), r) && evaluates(*a, x),
        Formula::SquareRoot(a) => exists|x: N| #[trigger]
            call_ensures(N::square_root, (x,), r) && evaluates(*a, x),
        Formula::Sine(a) => exists|x: N| #[trigger]
            call_ensures(N::sine, (x,), r) && evaluates(*a, x),
        Formula::Cosine(a) => exists|x: N| #[trigger]
            call_ensures(N::cosine, (x,), r) && evaluates(*a, x),
        Formula::Tangent(a) => exists|x: N| #[trigger]
            call_ensures(N::tangent, (x,), r) && evaluates(*a, x),
        Formula::Exponential(a) => exists|x: N| #[trigger]
            call_ensures(N::exponential, (x,), r) && evaluates(*a, x),
        Formula::Logarithm(a) => exists|x: N| #[trigger]
            call_ensures(N::logarithm, (x,), r) && evaluates(*a, x),
        Formula::Plus(a, b) => exists|x: N, y: N| #[trigger]
            call_ensures(N::plus, (x, y), r) && evaluates(*a, x) && evaluates(*b, y),
        Formula::Minus(a, b) => exists|x: N, y: N| #[trigger]
            call_ensures(N::minus, (x, y), r) && evaluates(*a, x) && evaluates(*b, y),
        Formula::Times(a, b) => exists|x: N, y: N| #[trigger]
            call_ensures(N::times, (x, y), r) && evaluates(*a, x) && evaluates(*b, y),
        Formula::Over(a, b) => exists|x: N, y: N| #[trigger]
            call_ensures(N::over, (x, y), r) && evaluates(*a, x) && evaluates(*b, y),
        Formula::Remainder(a, b) => exists|x: N, y: N| #[trigger]
            call_ensures(N::remainder, (x, y), r) && evaluates(*a, x) && evaluates(*b, y),
        Formula::Lesser(a, b) => exists|x: N, y: N| #[trigger]
            call_ensures(N::lesser, (x, y), r) && evaluates(*a, x) && evaluates(*b, y),
        Formula::Greater(a, b) => exists|x: N, y: N| #[trigger]
            call_ensures(N::greater, (x, y), r) && evaluates(*a, x) && evaluates(*b, y),
        Formula::Power(a, b) => exists|x: N, y: N| #[trigger]
            call_ensures(N::power, (x, y), r) && evaluates(*a, x) && evaluates(*b, y),
        Formula::Clamp(a, lo, hi) => exists|x: N, l: N, h: N| #[trigger]
            clamped(x, l, h, r) && evaluates(*a, x) && evaluates(*lo, l) && evaluates(*hi, h),
    }
}

/// With a number type whose operations are repeatable, a formula has one value.
pub proof fn law_formula_has_one_value<N: Scalar>(f: Formula<N>, r: N, s: N)
    requires
        repeatable::<N>(),
        evaluates(f, r),
        evaluates(f, s),
    ensures
        r == s,
    decreases f,
{
    match f {
        Formula::Val(x) => {},
        Formula::Lit(bits) => {},
        Formula::Count(n) => {},
        Formula::Negated(a) => {
            let x = choose|x: N| #[trigger]
                call_ensures(N::negated, (x,), r) && evaluates(*a, x);
            let y = choose|x: N| #[trigger]
                call_ensures(N::negated, (x,), s) && evaluates(*a, x);
            law_formula_has_one_value(*a, x, y);
        },
        Formula::Magnitude(a) => {
            let x = choose|x: N| #[trigger]
                call_ensures(N::magnitude, (x,), r) && evaluates(*a, x);
            let y = choose|x: N| #[trigger]
                call_ensures(N::magnitude, (x,), s) && evaluates(*a, x);
            law_formula_has_one_value(*a, x, y);
        },
        Formula::SquareRoot(a) => {
            let x = choose|x: N| #[trigger]
                call_ensures(N::square_root, (x,), r) && evaluates(*a, x);
            let y = choose|x: N| #[trigger]
                call_ensures(N::square_root, (x,), s) && evaluates(*a, x);
            law_formula_has_one_value(*a, x, y);
        },
        Formula::Sine(a) => {
            let x = choose|x: N| #[trigger]
                call_ensures(N::sine, (x,), r) && evaluates(*a, x);
            let y = choose|x: N| #[trigger]
                call_ensures(N::sine, (x,), s) && evaluates(*a, x);
            law_formula_has_one_value(*a, x, y);
        },
        Formula::Cosine(a) => {
            let x = choose|x: N| #[trigger]
                call_ensures(N::cosine, (x,), r) && evaluates(*a, x);
            let y = choose|x: N| #[trigger]
                call_ensures(N::cosine, (x,), s) && evaluates(*a, x);
            law_formula_has_one_value(*a, x, y);
        },
        Formula::Tangent(a) => {
            let x = choose|x: N| #[trigger]
                call_ensures(N::tangent, (x,), r) && evaluates(*a, x);
            let y = choose|x: N| #[trigger]
                call_ensures(N::tangent, (x,), s) && evaluates(*a, x);
            law_formula_has_one_value(*a, x, y);
        },
        Formula::Exponential(a) => {
            let x = choose|x: N| #[trigger]
                call_ensures(N::exponential, (x,), r) && evaluates(*a, x);
            let y = choose|x: N| #[trigger]
                call_ensures(N::exponential, (x,), s) && evaluates(*a, x);
            law_formula_has_one_value(*a, x, y);
        },
        Formula::Logarithm(a) => {
            let x = choose|x: N| #[trigger]
                call_ensures(N::logarithm, (x,), r) && evaluates(*a, x);
            let y = choose|x: N| #[trigger]
                call_ensures(N::logarithm, (x,), s) && evaluates(*a, x);
            law_formula_has_one_value(*a, x, y);
        },
        Formula::Plus(a, b) => {
            let (x, y) = choose|x: N, y: N| #[trigger]
                call_ensures(N::plus, (x, y), r) && evaluates(*a, x) && evaluates(*b, y);
            let (v, w) = choose|x: N, y: N| #[trigger]
                call_ensures(N::plus, (x, y), s) && evaluates(*a, x) && evaluates(*b, y);
            law_formula_has_one_value(*a, x, v);
            law_formula_has_one_value(*b, y, w);
        },
        Formula::Minus(a, b) => {
            let (x, y) = choose|x: N, y: N| #[trigger]
                call_ensures(N::minus, (x, y), r) && evaluates(*a, x) && evaluates(*b, y);
            let (v, w) = choose|x: N, y: N| #[trigger]
                call_ensures(N::minus, (x, y), s) && evaluates(*a, x) && evaluates(*b, y);
            law_formula_has_one_value(*a, x, v);
            law_formula_has_one_value(*b, y, w);
        },
        Formula::Times(a, b) => {
            let (x, y) = choose|x: N, y: N| #[trigger]
                call_ensures(N::times, (x, y), r) && evaluates(*a, x) && evaluates(*b, y);
            let (v, w) = choose|x: N, y: N| #[trigger]
                call_ensures(N::times, (x, y), s) && evaluates(*a, x) && evaluates(*b, y);
            law_formula_has_one_value(*a, x, v);
            law_formula_has_one_value(*b, y, w);
        },
        Formula::Over(a, b) => {
            let (x, y) = choose|x: N, y: N| #[trigger]
                call_ensures(N::over, (x, y), r) && evaluates(*a, x) && evaluates(*b, y);
            let (v, w) = choose|x: N, y: N| #[trigger]
                call_ensures(N::over, (x, y), s) && evaluates(*a, x) && evaluates(*b, y);
            law_formula_has_one_value(*a, x, v);
            law_formula_has_one_value(*b, y, w);
        },
        Formula::Remainder(a, b) => {
            let (x, y) = choose|x: N, y: N| #[trigger]
                call_ensures(N::remainder, (x, y), r) && evaluates(*a, x) && evaluates(*b, y);
            let (v, w) = choose|x: N, y: N| #[trigger]
                call_ensures(N::remainder, (x, y), s) && evaluates(*a, x) && evaluates(*b, y);
            law_formula_has_one_value(*a, x, v);
            law_formula_has_one_value(*b, y, w);
        },
        Formula::Lesser(a, b) => {
            let (x, y) = choose|x: N, y: N| #[trigger]
                call_ensures(N::lesser, (x, y), r) && evaluates(*a, x) && evaluates(*b, y);
            let (v, w) = choose|x: N, y: N| #[trigger]
                call_ensures(N::lesser, (x, y), s) && evaluates(*a, x) && evaluates(*b, y);
            law_formula_has_one_value(*a, x, v);
            law_formula_has_one_value(*b, y, w);
        },
        Formula::Greater(a, b) => {
            let (x, y) = choose|x: N, y: N| #[trigger]
                call_ensures(N::greater, (x, y), r) && evaluates(*a, x) && evaluates(*b, y);
            let (v, w) = choose|x: N, y: N| #[trigger]
                call_ensures(N::greater, (x, y), s) && evaluates(*a, x) && evaluates(*b, y);
            law_formula_has_one_value(*a, x, v);
            law_formula_has_one_value(*b, y, w);
        },
        Formula::Power(a, b) => {
            let (x, y) = choose|x: N, y: N| #[trigger]
                call_ensures(N::power, (x, y), r) && evaluates(*a, x) && evaluates(*b, y);
            let (v, w) = choose|x: N, y: N| #[trigger]
                call_ensures(N::power, (x, y), s) && evaluates(*a, x) && evaluates(*b, y);
            law_formula_has_one_value(*a, x, v);
            law_formula_has_one_value(*b, y, w);
        },
        Formula::Clamp(a, lo, hi) => {
            let (x, l, h) = choose|x: N, l: N, h: N| #[trigger]
                clamped(x, l, h, r) && evaluates(*a, x) && evaluates(*lo, l) && evaluates(*hi, h);
            let (y, m, i) = choose|x: N, l: N, h: N| #[trigger]
                clamped(x, l, h, s) && evaluates(*a, x) && evaluates(*lo, l) && evaluates(*hi, h);
            law_formula_has_one_value(*a, x, y);
            law_formula_has_one_value(*lo, l, m);
            law_formula_has_one_value(*hi, h, i);
        },
    }
}

/// If two formulas can take every value that two others can, so can their sum.
pub proof fn lemma_plus_carries_over<N: Scalar>(
    a: Formula<N>,
    a2: Formula<N>,
    b: Formula<N>,
    b2: Formula<N>,
)
    requires
        forall|r: N| #[trigger] evaluates(a, r) ==> evaluates(a2, r),
        forall|r: N| #[trigger] evaluates(b, r) ==> evaluates(b2, r),
    ensures
        forall|r: N| #[trigger] evaluates(a.plus(b), r) ==> evaluates(a2.plus(b2), r),
{
    assert forall|r: N| #[trigger] evaluates(a.plus(b), r) implies evaluates(a2.plus(b2), r) by {
        let (x, y) = choose|x: N, y: N| #[trigger]
            call_ensures(N::plus, (x, y), r) && evaluates(a, x) && evaluates(b, y);
        assert(call_ensures(N::plus, (x, y), r) && evaluates(a2, x) && evaluates(b2, y));
    }
}

/// If two formulas can take every value that two others can, so can their
/// difference.
pub proof fn lemma_minus_carries_over<N: Scalar>(
    a: Formula<N>,
    a2: Formula<N>,
    b: Formula<N>,
    b2: Formula<N>,
)
    requires
        forall|r: N| #[trigger] evaluates(a, r) ==> evaluates(a2, r),
        forall|r: N| #[trigger] evaluates(b, r) ==> evaluates(b2, r),
    ensures
        forall|r: N| #[trigger] evaluates(a.minus(b), r) ==> evaluates(a2.minus(b2), r),
{
    assert forall|r: N| #[trigger] evaluates(a.minus(b), r) implies evaluates(a2.minus(b2), r) by {
        let (x, y) = choose|x: N, y: N| #[trigger]
            call_ensures(N::minus, (x, y), r) && evaluates(a, x) && evaluates(b, y);
        assert(call_ensures(N::minus, (x, y), r) && evaluates(a2, x) && evaluates(b2, y));
    }
}

/// If two formulas can take every value that two others can, so can their product.
pub proof fn lemma_times_carries_over<N: Scalar>(
    a: Formula<N>,
    a2: Formula<N>,
    b: Formula<N>,
    b2: Formula<N>,
)
    requires
        forall|r: N| #[trigger] evaluates(a, r) ==> evaluates(a2, r),
        forall|r: N| #[trigger] evaluates(b, r) ==> evaluates(b2, r),
    ensures
        forall|r: N| #[trigger] evaluates(a.times(b), r) ==> evaluates(a2.times(b2), r),
{
    assert forall|r: N| #[trigger] evaluates(a.times(b), r) implies evaluates(a2.times(b2), r) by {
        let (x, y) = choose|x: N, y: N| #[trigger]
            call_ensures(N::times, (x, y), r) && evaluates(a, x) && evaluates(b, y);
        assert(call_ensures(N::times, (x, y), r) && evaluates(a2, x) && evaluates(b2, y));
    }
}

/// If two formulas can take every value that two others can, so can their quotient.
pub proof fn lemma_over_carries_over<N: Scalar>(
    a: Formula<N>,
    a2: Formula<N>,
    b: Formula<N>,
    b2: Formula<N>,
)
    requires
        forall|r: N| #[trigger] evaluates(a, r) ==> evaluates(a2, r),
        forall|r: N| #[trigger] evaluates(b, r) ==> evaluates(b2, r),
    ensures
        forall|r: N| #[trigger] evaluates(a.over(b), r) ==> evaluates(a2.over(b2), r),
{
    assert forall|r: N| #[trigger] evaluates(a.over(b), r) implies evaluates(a2.over(b2), r) by {
        let (x, y) = choose|x: N, y: N| #[trigger]
            call_ensures(N::over, (x, y), r) && evaluates(a, x) && evaluates(b, y);
        assert(call_ensures(N::over, (x, y), r) && evaluates(a2, x) && evaluates(b2, y));
    }
}

} // verus!
