//! Numbers read as reals, and how far their arithmetic is off.

use vstd::prelude::*;

use crate::formula::{evaluates, lit, Formula};
use crate::scalar::{clamped, Scalar, ONE, TWO, ZERO};

verus! {

/// The magnitude of a real.
pub open spec fn magnitude(x: real) -> real {
    if x < 0real {
        0real - x
    } else {
        x
    }
}

/// `x` is off from `y` by no more than `error`.
pub open spec fn is_within(x: real, y: real, error: real) -> bool {
    y - error <= x <= y + error
}

/// A way to read numbers as reals, with a bound up to which the reading is good
/// and the error of one operation there.
///
/// A reading of binary32 gives each finite number its value, and the infinities
/// and what is not a number something beyond the bound. With a bound of 32 an
/// error of 2^-20 will do, half the distance of neighbors below 32.
#[verifier::reject_recursive_types(N)]
pub struct Reading<N> {
    pub value: spec_fn(N) -> real,
    pub bound: real,
    pub error: real,
}

impl<N: Scalar> Reading<N> {
    /// The real that a number stands for.
    pub open spec fn of(self, x: N) -> real {
        (self.value)(x)
    }

    /// The real lies within the bound.
    pub open spec fn covers(self, x: real) -> bool {
        magnitude(x) <= self.bound
    }

    /// Sums, differences, products and quotients within the bound, of operands
    /// within it, are off by no more than the error; 0 and 1 are exact; and
    /// comparisons of numbers within the bound follow the reals. All of this is
    /// IEEE arithmetic.
    pub open spec fn is_accurate(self) -> bool {
        &&& self.bound >= 1real
        &&& self.error >= 0real
        &&& forall|zero: N| #[trigger] evaluates(lit(ZERO), zero) ==> self.of(zero) == 0real
        &&& forall|one: N| #[trigger] evaluates(lit(ONE), one) ==> self.of(one) == 1real
        &&& forall|x: N, y: N, r: N| #[trigger]
            call_ensures(N::plus, (x, y), r) && self.covers(self.of(x)) && self.covers(self.of(y))
                && self.covers(self.of(x) + self.of(y)) ==> is_within(
                self.of(r),
                self.of(x) + self.of(y),
                self.error,
            )
        &&& forall|x: N, y: N, r: N| #[trigger]
            call_ensures(N::minus, (x, y), r) && self.covers(self.of(x)) && self.covers(self.of(y))
                && self.covers(self.of(x) - self.of(y)) ==> is_within(
                self.of(r),
                self.of(x) - self.of(y),
                self.error,
            )
        &&& forall|x: N, y: N, r: N| #[trigger]
            call_ensures(N::times, (x, y), r) && self.covers(self.of(x)) && self.covers(self.of(y))
                && self.covers(self.of(x) * self.of(y)) ==> is_within(
                self.of(r),
                self.of(x) * self.of(y),
                self.error,
            )
        &&& forall|x: N, y: N, r: N| #[trigger]
            call_ensures(N::over, (x, y), r) && self.covers(self.of(x)) && self.covers(self.of(y))
                && self.of(y) != 0real && self.covers(self.of(x) / self.of(y)) ==> is_within(
                self.of(r),
                self.of(x) / self.of(y),
                self.error,
            )
        &&& forall|x: N, y: N|
            self.covers(self.of(x)) && self.covers(self.of(y)) && self.of(x) < self.of(y)
                ==> !#[trigger] call_ensures(N::is_below, (x, y), false)
        &&& forall|x: N, y: N|
            self.covers(self.of(x)) && self.covers(self.of(y)) && self.of(x) < self.of(y)
                ==> !#[trigger] call_ensures(N::is_at_most, (x, y), false)
        &&& forall|x: N, y: N|
            self.covers(self.of(x)) && self.covers(self.of(y)) && self.of(x) < self.of(y)
                ==> !#[trigger] call_ensures(N::is_at_least, (y, x), false)
    }

    /// Comparisons of numbers within the bound answer as the reals do, and the
    /// magnitude of a number is that of its real. This is IEEE arithmetic.
    pub open spec fn is_decisive(self) -> bool {
        &&& forall|x: N, y: N, answer: bool| #[trigger]
            call_ensures(N::is_below, (x, y), answer) && self.covers(self.of(x)) && self.covers(
                self.of(y),
            ) ==> answer == (self.of(x) < self.of(y))
        &&& forall|x: N, y: N, answer: bool| #[trigger]
            call_ensures(N::is_above, (x, y), answer) && self.covers(self.of(x)) && self.covers(
                self.of(y),
            ) ==> answer == (self.of(x) > self.of(y))
        &&& forall|x: N, y: N, answer: bool| #[trigger]
            call_ensures(N::is_at_most, (x, y), answer) && self.covers(self.of(x)) && self.covers(
                self.of(y),
            ) ==> answer == (self.of(x) <= self.of(y))
        &&& forall|x: N, y: N, answer: bool| #[trigger]
            call_ensures(N::is_at_least, (x, y), answer) && self.covers(self.of(x)) && self.covers(
                self.of(y),
            ) ==> answer == (self.of(x) >= self.of(y))
        &&& forall|x: N, r: N| #[trigger]
            call_ensures(N::magnitude, (x,), r) ==> self.of(r) == magnitude(self.of(x))
    }

    /// The arithmetic is exact: sums, differences, products and quotients are those of
    /// the reals, and so are 0, 1 and 2 and the lesser of two numbers. No arithmetic
    /// of a fixed width is; what is stated of exact arithmetic is what the rounded one
    /// is close to.
    pub open spec fn is_exact(self) -> bool {
        &&& forall|x: N| #[trigger] evaluates(lit(ZERO), x) ==> self.of(x) == 0real
        &&& forall|x: N| #[trigger] evaluates(lit(ONE), x) ==> self.of(x) == 1real
        &&& forall|x: N| #[trigger] evaluates(lit(TWO), x) ==> self.of(x) == 2real
        &&& forall|x: N, y: N, r: N| #[trigger]
            call_ensures(N::plus, (x, y), r) ==> self.of(r) == self.of(x) + self.of(y)
        &&& forall|x: N, y: N, r: N| #[trigger]
            call_ensures(N::minus, (x, y), r) ==> self.of(r) == self.of(x) - self.of(y)
        &&& forall|x: N, y: N, r: N| #[trigger]
            call_ensures(N::times, (x, y), r) ==> self.of(r) == self.of(x) * self.of(y)
        &&& forall|x: N, y: N, r: N| #[trigger]
            call_ensures(N::over, (x, y), r) && self.of(y) != 0real ==> self.of(r) == self.of(x)
                / self.of(y)
        &&& forall|x: N, y: N, r: N| #[trigger]
            call_ensures(N::lesser, (x, y), r) ==> self.of(r) == if self.of(y) < self.of(x) {
                self.of(y)
            } else {
                self.of(x)
            }
    }

    /// Products and quotients within the bound that are not below the floor are off
    /// by no more than a share of themselves, and the greater of two numbers and the
    /// negated number are exact. Over binary32 this is IEEE arithmetic, with a share
    /// of 2^-24, a floor of 2^-126 and a bound of 2^127.
    pub open spec fn is_relative(self, share: real, floor: real) -> bool {
        &&& 0real <= share <= 1real / 12real
        &&& 0real < floor <= 1real / 2real
        &&& self.bound >= 1real
        &&& forall|x: N, y: N, r: N| #[trigger]
            call_ensures(N::times, (x, y), r) && self.covers(self.of(x)) && self.covers(self.of(y))
                && floor <= magnitude(self.of(x) * self.of(y)) <= self.bound ==> is_within(
                self.of(r),
                self.of(x) * self.of(y),
                share * magnitude(self.of(x) * self.of(y)),
            )
        &&& forall|x: N, y: N, r: N| #[trigger]
            call_ensures(N::over, (x, y), r) && self.covers(self.of(x)) && self.covers(self.of(y))
                && self.of(y) != 0real && floor <= magnitude(self.of(x) / self.of(y))
                <= self.bound ==> is_within(
                self.of(r),
                self.of(x) / self.of(y),
                share * magnitude(self.of(x) / self.of(y)),
            )
        &&& forall|x: N, y: N, r: N| #[trigger]
            call_ensures(N::greater, (x, y), r) && self.covers(self.of(x)) && self.covers(
                self.of(y),
            ) ==> self.of(r) == if self.of(x) < self.of(y) {
                self.of(y)
            } else {
                self.of(x)
            }
        &&& forall|x: N, r: N| #[trigger]
            call_ensures(N::negated, (x,), r) ==> self.of(r) == 0real - self.of(x)
    }

    /// Products within the bound that are not below the floor are off by no more
    /// than a share of themselves. Over binary32 this is IEEE arithmetic, with a
    /// share of 2^-24 and a floor of 2^-126.
    pub open spec fn is_proportionate(self, share: real, floor: real) -> bool {
        &&& 0real <= share <= 1real
        &&& 0real < floor
        &&& forall|x: N, y: N, r: N| #[trigger]
            call_ensures(N::times, (x, y), r) && self.covers(self.of(x)) && self.covers(self.of(y))
                && floor <= self.of(x) * self.of(y) <= self.bound ==> is_within(
                self.of(r),
                self.of(x) * self.of(y),
                share * (self.of(x) * self.of(y)),
            )
    }
}

/// Whatever the formula evaluates to reads as `v`.
pub open spec fn is_worth<N: Scalar>(reading: Reading<N>, f: Formula<N>, v: real) -> bool {
    forall|r: N| #[trigger] evaluates(f, r) ==> reading.of(r) == v
}

/// In exact arithmetic a sum is worth the sum.
pub proof fn lemma_sum_is_worth<N: Scalar>(
    reading: Reading<N>,
    f: Formula<N>,
    g: Formula<N>,
    v: real,
    w: real,
)
    requires
        reading.is_exact(),
        is_worth(reading, f, v),
        is_worth(reading, g, w),
    ensures
        is_worth(reading, f.plus(g), v + w),
{
    assert forall|r: N| #[trigger] evaluates(f.plus(g), r) implies reading.of(r) == v + w by {
        let (x, y) = choose|x: N, y: N| #[trigger]
            call_ensures(N::plus, (x, y), r) && evaluates(f, x) && evaluates(g, y);
    }
}

/// In exact arithmetic a difference is worth the difference.
pub proof fn lemma_difference_is_worth<N: Scalar>(
    reading: Reading<N>,
    f: Formula<N>,
    g: Formula<N>,
    v: real,
    w: real,
)
    requires
        reading.is_exact(),
        is_worth(reading, f, v),
        is_worth(reading, g, w),
    ensures
        is_worth(reading, f.minus(g), v - w),
{
    assert forall|r: N| #[trigger] evaluates(f.minus(g), r) implies reading.of(r) == v - w by {
        let (x, y) = choose|x: N, y: N| #[trigger]
            call_ensures(N::minus, (x, y), r) && evaluates(f, x) && evaluates(g, y);
    }
}

/// In exact arithmetic a product is worth the product.
pub proof fn lemma_product_is_worth<N: Scalar>(
    reading: Reading<N>,
    f: Formula<N>,
    g: Formula<N>,
    v: real,
    w: real,
)
    requires
        reading.is_exact(),
        is_worth(reading, f, v),
        is_worth(reading, g, w),
    ensures
        is_worth(reading, f.times(g), v * w),
{
    assert forall|r: N| #[trigger] evaluates(f.times(g), r) implies reading.of(r) == v * w by {
        let (x, y) = choose|x: N, y: N| #[trigger]
            call_ensures(N::times, (x, y), r) && evaluates(f, x) && evaluates(g, y);
    }
}

/// In exact arithmetic a quotient by what is not 0 is worth the quotient.
pub proof fn lemma_quotient_is_worth<N: Scalar>(
    reading: Reading<N>,
    f: Formula<N>,
    g: Formula<N>,
    v: real,
    w: real,
)
    requires
        reading.is_exact(),
        is_worth(reading, f, v),
        is_worth(reading, g, w),
        w != 0real,
    ensures
        is_worth(reading, f.over(g), v / w),
{
    assert forall|r: N| #[trigger] evaluates(f.over(g), r) implies reading.of(r) == v / w by {
        let (x, y) = choose|x: N, y: N| #[trigger]
            call_ensures(N::over, (x, y), r) && evaluates(f, x) && evaluates(g, y);
    }
}

/// A real held to the range from 0 to 1.
pub open spec fn held_to_unit(x: real) -> real {
    if x < 0real {
        0real
    } else if x > 1real {
        1real
    } else {
        x
    }
}

/// A number held to the range from 0 to 1 is the real held to it.
pub proof fn lemma_held_to_unit<N: Scalar>(reading: Reading<N>, x: N, zero: N, one: N, r: N)
    requires
        reading.is_accurate(),
        reading.is_decisive(),
        evaluates(lit(ZERO), zero),
        evaluates(lit(ONE), one),
        reading.covers(reading.of(x)),
        clamped(x, zero, one, r),
    ensures
        reading.of(r) == held_to_unit(reading.of(x)),
{
}

/// An exponential on the reals: positive, rising, and turning sums into products.
pub struct Growth {
    pub curve: spec_fn(real) -> real,
}

impl Growth {
    /// The exponential of a real.
    pub open spec fn at(self, x: real) -> real {
        (self.curve)(x)
    }

    /// The curve is positive, rises, is 1 at 0, and turns sums into products.
    pub open spec fn is_exponential(self) -> bool {
        &&& self.at(0real) == 1real
        &&& forall|x: real| #[trigger] self.at(x) > 0real
        &&& forall|x: real, y: real|
            x < y ==> #[trigger] self.at(x) < #[trigger] self.at(y)
        &&& forall|x: real, y: real| #[trigger]
            self.at(x + y) == self.at(x) * self.at(y)
    }
}

/// `x` multiplied by itself `n` times.
pub open spec fn power_of(x: real, n: nat) -> real
    decreases n,
{
    if n == 0 {
        1real
    } else {
        power_of(x, (n - 1) as nat) * x
    }
}

/// A product is no greater than the product of the bounds of its factors.
pub proof fn lemma_product_is_bounded(x: real, y: real, a: real, b: real)
    requires
        magnitude(x) <= a,
        magnitude(y) <= b,
    ensures
        magnitude(x * y) <= a * b,
        0real - a * b <= x * y <= a * b,
{
    assert(0real - a * b <= x * y <= a * b) by (nonlinear_arith)
        requires
            0real - a <= x <= a,
            0real - b <= y <= b,
    ;
}

/// Scaling two reals by a factor scales the distance between them.
pub proof fn lemma_scaled_error(factor: real, x: real, y: real, error: real, size: real)
    requires
        is_within(x, y, error),
        magnitude(factor) <= size,
    ensures
        is_within(factor * x, factor * y, size * error),
{
    lemma_product_is_bounded(factor, x - y, size, error);
    assert(factor * (x - y) == factor * x - factor * y) by (nonlinear_arith);
}

/// The powers of a share are shares.
pub proof fn lemma_power_is_share(x: real, n: nat)
    requires
        0real <= x <= 1real,
    ensures
        0real <= power_of(x, n) <= 1real,
    decreases n,
{
    if n > 0 {
        let p = power_of(x, (n - 1) as nat);
        lemma_power_is_share(x, (n - 1) as nat);
        assert(0real <= p * x <= 1real) by (nonlinear_arith)
            requires
                0real <= p <= 1real,
                0real <= x <= 1real,
        ;
    }
}

/// A power of an exponential is the exponential of the multiple.
pub proof fn lemma_power_of_growth(growth: Growth, x: real, n: nat)
    requires
        growth.is_exponential(),
    ensures
        power_of(growth.at(x), n) == growth.at(n as real * x),
    decreases n,
{
    if n == 0 {
        assert(0real * x == 0real) by (nonlinear_arith);
    } else {
        let k = (n - 1) as nat;
        lemma_power_of_growth(growth, x, k);
        assert(n as real == k as real + 1real);
        assert((k as real + 1real) * x == k as real * x + x) by (nonlinear_arith);
        assert(growth.at(k as real * x + x) == growth.at(k as real * x) * growth.at(x));
    }
}

/// The error of a value that is multiplied by a share and takes on an error, `n`
/// times over: each error shrinks with the value.
pub open spec fn compound_error(share: real, error: real, n: nat) -> real
    decreases n,
{
    if n == 0 {
        0real
    } else {
        compound_error(share, error, (n - 1) as nat) * share + error
    }
}

/// The compound error grows with the number of steps, and is never below 0.
pub proof fn lemma_compound_error_grows(share: real, error: real, n: nat)
    requires
        0real <= share <= 1real,
        0real <= error,
    ensures
        0real <= compound_error(share, error, n) <= compound_error(share, error, n + 1),
    decreases n,
{
    if n == 0 {
        assert(0real * share == 0real) by (nonlinear_arith);
        reveal_with_fuel(compound_error, 2);
    } else {
        let k = (n - 1) as nat;
        lemma_compound_error_grows(share, error, k);
        let (a, b) = (compound_error(share, error, k), compound_error(share, error, n));
        assert(0real <= a * share <= b * share) by (nonlinear_arith)
            requires
                0real <= a <= b,
                0real <= share,
        ;
        assert(compound_error(share, error, n + 1) == b * share + error);
    }
}

/// However many steps there are, the compound error stays within a bound that loses
/// at least one error when it is multiplied by the share.
pub proof fn lemma_compound_error_is_bounded(share: real, error: real, n: nat, bound: real)
    requires
        0real <= share <= 1real,
        0real <= error <= bound * (1real - share),
        0real <= bound,
    ensures
        compound_error(share, error, n) <= bound,
    decreases n,
{
    if n > 0 {
        let k = (n - 1) as nat;
        lemma_compound_error_is_bounded(share, error, k, bound);
        let a = compound_error(share, error, k);
        assert(a * share + error <= bound) by (nonlinear_arith)
            requires
                a <= bound,
                0real <= share,
                error <= bound * (1real - share),
        ;
    }
}

/// The powers of a greater base are not less.
pub proof fn lemma_power_keeps_order(x: real, y: real, n: nat)
    requires
        0real <= x <= y,
    ensures
        0real <= power_of(x, n) <= power_of(y, n),
    decreases n,
{
    if n > 0 {
        let k = (n - 1) as nat;
        lemma_power_keeps_order(x, y, k);
        let (a, b) = (power_of(x, k), power_of(y, k));
        assert(0real <= a * x <= b * y) by (nonlinear_arith)
            requires
                0real <= a <= b,
                0real <= x <= y,
        {
            assert(a * x <= b * x);
            assert(b * x <= b * y);
        }
    }
}

} // verus!
