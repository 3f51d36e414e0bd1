//! The arithmetic that the simulation runs on.
//!
//! Money, prices, stockpiles and probabilities are all values of one number
//! type, and the simulation is written once for every such type.  Each
//! operation is a pair: a specification function that names the result of the
//! operation, and an executable method that computes the named result.  The
//! trait claims nothing else of the operations, so everything proved about the
//! simulation holds whichever way a number type rounds.

use vstd::prelude::*;

verus! {

/// A number type: a fixed result for each arithmetic operation.
pub trait Number: Sized + Copy {
    /// The result of `ratio`.
    spec fn fraction(num: i64, den: i64) -> Self;

    /// The result of `from_count`.
    spec fn count(n: usize) -> Self;

    /// The result of `add`.
    spec fn sum(self, other: Self) -> Self;

    /// The result of `sub`.
    spec fn difference(self, other: Self) -> Self;

    /// The result of `mul`.
    spec fn product(self, other: Self) -> Self;

    /// The result of `div`.
    spec fn quotient(self, other: Self) -> Self;

    /// The result of `rem`.
    spec fn remainder(self, other: Self) -> Self;

    /// The result of `neg`.
    spec fn opposite(self) -> Self;

    /// The result of `abs`.
    spec fn magnitude(self) -> Self;

    /// The result of `floor`.
    spec fn floored(self) -> Self;

    /// The result of `min`.
    spec fn smaller(self, other: Self) -> Self;

    /// The result of `max`.
    spec fn larger(self, other: Self) -> Self;

    /// The result of `powf`.
    spec fn power(self, exponent: Self) -> Self;

    /// The result of `powi`.
    spec fn whole_power(self, exponent: i32) -> Self;

    /// The result of `lt`.
    spec fn less(self, other: Self) -> bool;

    /// The result of `le`.
    spec fn at_most(self, other: Self) -> bool;

    /// The result of `to_fixed`.
    spec fn text(self, places: usize) -> String;

    /// The number that stands for `num / den`.
    fn ratio(num: i64, den: i64) -> (r: Self)
        requires
            den > 0,
        ensures
            r == Self::fraction(num, den),
    ;

    /// The number that stands for the count `n`.
    fn from_count(n: usize) -> (r: Self)
        ensures
            r == Self::count(n),
    ;

    fn add(self, other: Self) -> (r: Self)
        ensures
            r == self.sum(other),
    ;

    fn sub(self, other: Self) -> (r: Self)
        ensures
            r == self.difference(other),
    ;

    fn mul(self, other: Self) -> (r: Self)
        ensures
            r == self.product(other),
    ;

    fn div(self, other: Self) -> (r: Self)
        ensures
            r == self.quotient(other),
    ;

    fn rem(self, other: Self) -> (r: Self)
        ensures
            r == self.remainder(other),
    ;

    fn neg(self) -> (r: Self)
        ensures
            r == self.opposite(),
    ;

    fn abs(self) -> (r: Self)
        ensures
            r == self.magnitude(),
    ;

    /// The largest whole number that is not above `self`.
    fn floor(self) -> (r: Self)
        ensures
            r == self.floored(),
    ;

    fn min(self, other: Self) -> (r: Self)
        ensures
            r == self.smaller(other),
    ;

    fn max(self, other: Self) -> (r: Self)
        ensures
            r == self.larger(other),
    ;

    fn powf(self, exponent: Self) -> (r: Self)
        ensures
            r == self.power(exponent),
    ;

    fn powi(self, exponent: i32) -> (r: Self)
        ensures
            r == self.whole_power(exponent),
    ;

    fn lt(self, other: Self) -> (r: bool)
        ensures
            r == self.less(other),
    ;

    fn le(self, other: Self) -> (r: bool)
        ensures
            r == self.at_most(other),
    ;

    /// The decimal text of `self` with `places` digits behind the point.
    fn to_fixed(self, places: usize) -> (r: String)
        ensures
            r@ == self.text(places)@,
    ;
}

/// A whole number.
pub open spec fn whole<N: Number>(n: i64) -> N {
    N::fraction(n, 1)
}

pub fn make_whole<N: Number>(n: i64) -> (r: N)
    ensures
        r == whole::<N>(n),
{
    N::ratio(n, 1)
}

/// A number given in hundredths.
pub open spec fn hundredths<N: Number>(n: i64) -> N {
    N::fraction(n, 100)
}

pub fn make_hundredths<N: Number>(n: i64) -> (r: N)
    ensures
        r == hundredths::<N>(n),
{
    N::ratio(n, 100)
}

/// `x` moved to the nearer end of `low..=high` where it lies outside.
pub open spec fn clamped<N: Number>(x: N, low: N, high: N) -> N {
    if x.less(low) {
        low
    } else if high.less(x) {
        high
    } else {
        x
    }
}

pub fn clamp<N: Number>(x: N, low: N, high: N) -> (r: N)
    ensures
        r == clamped(x, low, high),
{
    if x.lt(low) {
        low
    } else if high.lt(x) {
        high
    } else {
        x
    }
}

/// Law: what lies between the ends stays as it is, and what does not moves to the end that
/// it lies beyond.
pub proof fn law_clamping<N: Number>(val: spec_fn(N) -> real, x: N, low: N, high: N)
    requires
        ordered(val),
        val(low) <= val(high),
    ensures
        val(low) <= val(x) <= val(high) ==> clamped(x, low, high) == x,
        val(x) < val(low) ==> clamped(x, low, high) == low,
        val(x) > val(high) ==> clamped(x, low, high) == high,
{
}

/// `x` as a real.
pub open spec fn as_real(x: int) -> real {
    x as real
}

/// The real is a whole number.
pub open spec fn is_whole(x: real) -> bool {
    exists|k: int| #[trigger] as_real(k) == x
}

/// The real lies between `-limit` and `limit`.
pub open spec fn fits(limit: real, x: real) -> bool {
    -limit <= x <= limit
}

/// `val` reads numbers as reals so that comparisons are those of the reals.
pub open spec fn ordered<N: Number>(val: spec_fn(N) -> real) -> bool {
    &&& forall|a: N, b: N|
        #[trigger] val(a.smaller(b)) == if val(a) <= val(b) { val(a) } else { val(b) }
    &&& forall|a: N, b: N|
        #[trigger] val(a.larger(b)) == if val(a) >= val(b) { val(a) } else { val(b) }
    &&& forall|a: N, b: N| #[trigger] a.less(b) == (val(a) < val(b))
    &&& forall|a: N, b: N| #[trigger] a.at_most(b) == (val(a) <= val(b))
}

/// `val` reads numbers as reals so that comparisons are those of the reals, and so
/// are, as long as their results lie between `-limit` and `limit`, whole numbers,
/// hundredths, counts, sums, differences, magnitudes and roundings.
pub open spec fn linear_within<N: Number>(val: spec_fn(N) -> real, limit: real) -> bool {
    &&& ordered(val)
    &&& forall|n: i64| fits(limit, n as real) ==> #[trigger] val(whole::<N>(n)) == n as real
    &&& forall|n: i64|
        fits(limit * 100real, n as real) ==> #[trigger] val(hundredths::<N>(n)) * 100real
            == n as real
    &&& forall|n: usize|
        {
            &&& #[trigger] val(N::count(n)) >= 0real
            &&& fits(limit, n as real) ==> val(N::count(n)) == n as real
        }
    &&& forall|a: N, b: N|
        fits(limit, val(a) + val(b)) ==> #[trigger] val(a.sum(b)) == val(a) + val(b)
    &&& forall|a: N, b: N|
        fits(limit, val(a) - val(b)) ==> #[trigger] val(a.difference(b)) == val(a) - val(b)
    &&& forall|a: N| fits(limit, val(a)) ==> #[trigger] val(a.opposite()) == -val(a)
    &&& forall|a: N|
        fits(limit, val(a)) ==> #[trigger] val(a.magnitude()) == if val(a) < 0real {
            -val(a)
        } else {
            val(a)
        }
    &&& forall|a: N|
        {
            &&& #[trigger] val(a.floored()) <= val(a)
            &&& fits(limit, val(a)) ==> val(a) < val(a.floored()) + 1real && is_whole(
                val(a.floored()),
            )
        }
}

/// `val` reads numbers as reals so that products and quotients, as long as they lie
/// between `-limit` and `limit`, are those of the reals, rounded down by at most
/// `unit`; what is not below zero is not rounded below it, and whole numbers are not
/// rounded at all.  A power of a number up to one, for an exponent up to one, falls
/// short of the number by at most `unit`.
#[verifier::opaque]
pub open spec fn rounds_down<N: Number>(
    val: spec_fn(N) -> real,
    limit: real,
    unit: real,
) -> bool {
    &&& 0real <= unit
    &&& forall|a: N, b: N|
        fits(limit, val(a) * val(b)) ==> rounded_down(
            val(a) * val(b),
            #[trigger] val(a.product(b)),
            unit,
        )
    &&& forall|a: N, b: N|
        val(b) != 0real && fits(limit, val(a) / val(b)) ==> rounded_down(
            val(a) / val(b),
            #[trigger] val(a.quotient(b)),
            unit,
        )
    &&& forall|a: N, e: N|
        0real < val(a) <= 1real && 0real <= val(e) <= 1real ==> val(a) - unit <= #[trigger] val(
            a.power(e),
        )
}

/// `y` is `x`, rounded down by at most `unit`.
pub open spec fn rounded_down(x: real, y: real, unit: real) -> bool {
    &&& x - unit <= y <= x
    &&& x >= 0real ==> y >= 0real
    &&& is_whole(x) ==> y == x
}

/// `val` reads numbers as reals so that rounding, and the ends of the range, turn no
/// two results round: where the reals have a smaller sum, difference, product,
/// quotient or power for one number than for another, the numbers have no larger one.
/// Signs are those of the reals, a remainder lies below its divisor, a power for an
/// exponent up to one lies between zero and the larger of one and its base, and a
/// whole power of a number between zero and one is again between them.
#[verifier::opaque]
pub open spec fn keeps_order<N: Number>(val: spec_fn(N) -> real) -> bool {
    &&& forall|a: N, b: N|
        #![trigger val(a.opposite()), val(b.opposite())]
        val(a) <= val(b) ==> val(b.opposite()) <= val(a.opposite())
    &&& forall|a: N, b: N, c: N, d: N|
        #![trigger val(a.sum(c)), val(b.sum(d))]
        val(a) <= val(b) && val(c) <= val(d) ==> val(a.sum(c)) <= val(b.sum(d))
    &&& forall|a: N, b: N, c: N, d: N|
        #![trigger val(a.difference(d)), val(b.difference(c))]
        val(a) <= val(b) && val(c) <= val(d) ==> val(a.difference(d)) <= val(b.difference(c))
    &&& forall|a: N, b: N, c: N, d: N|
        #![trigger val(a.product(c)), val(b.product(d))]
        0real <= val(a) <= val(b) && 0real <= val(c) <= val(d) ==> 0real <= val(a.product(c))
            <= val(b.product(d))
    &&& forall|a: N, b: N, c: N|
        #![trigger val(a.product(c)), val(b.product(c))]
        val(a) <= val(b) && 0real <= val(c) ==> val(a.product(c)) <= val(b.product(c))
    &&& forall|a: N, b: N|
        val(a) <= 0real && 0real <= val(b) ==> #[trigger] val(a.product(b)) <= 0real
    &&& forall|a: N, b: N, c: N, d: N|
        #![trigger val(a.quotient(d)), val(b.quotient(c))]
        0real <= val(a) <= val(b) && 0real < val(c) <= val(d) ==> 0real <= val(a.quotient(d))
            <= val(b.quotient(c))
    &&& forall|a: N, b: N|
        val(a) <= 0real && 0real < val(b) ==> #[trigger] val(a.quotient(b)) <= 0real
    &&& forall|a: N, b: N|
        val(a) >= 0real && val(b) > 0real ==> 0real <= #[trigger] val(a.remainder(b)) < val(b)
    &&& forall|a: N, b: N, e: N|
        #![trigger val(a.power(e)), val(b.power(e))]
        0real < val(a) <= val(b) && 0real <= val(e) ==> 0real <= val(a.power(e)) <= val(
            b.power(e),
        )
    &&& forall|a: N, e: N|
        0real < val(a) && 0real <= val(e) <= 1real ==> #[trigger] val(a.power(e)) <= if val(a)
            <= 1real {
            1real
        } else {
            val(a)
        }
    &&& forall|a: N, n: i32|
        0real <= val(a) <= 1real && n >= 0 ==> 0real <= #[trigger] val(a.whole_power(n)) <= 1real
}

/// `x` multiplied with itself `n` times over.
pub open spec fn real_power(x: real, n: nat) -> real
    decreases n,
{
    if n == 0 {
        1real
    } else {
        real_power(x, (n - 1) as nat) * x
    }
}

/// `val` reads numbers as reals so that whole powers are products of equal factors, each
/// rounded down by at most `unit` as long as it lies between `-limit` and `limit`.
#[verifier::opaque]
pub open spec fn repeats<N: Number>(val: spec_fn(N) -> real, limit: real, unit: real) -> bool {
    &&& forall|a: N| #[trigger] val(a.whole_power(0)) == 1real
    &&& forall|a: N, n: i32, k: i32|
        #![trigger val(a.whole_power(n)), val(a.whole_power(k))]
        0 <= n && k == n + 1 && fits(limit, val(a.whole_power(n)) * val(a)) ==> rounded_down(
            val(a.whole_power(n)) * val(a),
            val(a.whole_power(k)),
            unit,
        )
}

/// `val` reads numbers as reals so that the remainder of a count over a whole number,
/// both between zero and `limit`, is that of the whole numbers.
#[verifier::opaque]
pub open spec fn counts_over<N: Number>(val: spec_fn(N) -> real, limit: real) -> bool {
    forall|n: usize, d: i64|
        d > 0 && fits(limit, n as real) && fits(limit, d as real) ==> #[trigger] val(
            N::count(n).remainder(whole(d)),
        ) == (n as int % d as int) as real
}

/// `val` reads numbers as reals so that whole numbers, hundredths, sums, differences, roundings
/// and comparisons are those of the reals.
pub open spec fn linear<N: Number>(val: spec_fn(N) -> real) -> bool {
    &&& ordered(val)
    &&& forall|n: i64| #[trigger] val(whole::<N>(n)) == n as real
    &&& forall|n: i64| #[trigger] val(hundredths::<N>(n)) * 100real == n as real
    &&& forall|n: usize| #[trigger] val(N::count(n)) == n as real
    &&& forall|a: N, b: N| #[trigger] val(a.sum(b)) == val(a) + val(b)
    &&& forall|a: N, b: N| #[trigger] val(a.difference(b)) == val(a) - val(b)
    &&& forall|a: N| #[trigger] val(a.opposite()) == -val(a)
    &&& forall|a: N|
        #[trigger] val(a.magnitude()) == if val(a) < 0real { -val(a) } else { val(a) }
    &&& forall|a: N|
        {
            &&& #[trigger] val(a.floored()) <= val(a) < val(a.floored()) + 1real
            &&& is_whole(val(a.floored()))
        }
}

/// `val` reads numbers as reals so that fractions, products and quotients are
/// those of the reals.  Of remainders and powers less is asked: a remainder lies below its
/// divisor; a power of a positive number is positive and, for an exponent that is not below
/// zero, grows with the number, and for one up to one lies between one and the number; and a
/// whole power of a number between zero and one is again between them.
#[verifier::opaque]
pub open spec fn multiplicative<N: Number>(val: spec_fn(N) -> real) -> bool {
    &&& forall|num: i64, den: i64|
        den > 0 ==> #[trigger] val(N::fraction(num, den)) == (num as real) / (den as real)
    &&& forall|a: N, b: N| #[trigger] val(a.product(b)) == val(a) * val(b)
    &&& forall|a: N, b: N|
        val(b) != 0real ==> #[trigger] val(a.quotient(b)) == val(a) / val(b)
    &&& forall|a: N, b: N|
        val(a) >= 0real && val(b) > 0real ==> 0real <= #[trigger] val(a.remainder(b)) < val(b)
    &&& forall|a: N, e: N| val(a) > 0real ==> #[trigger] val(a.power(e)) > 0real
    &&& forall|a: N, b: N, e: N|
        #![trigger val(a.power(e)), val(b.power(e))]
        0real < val(a) <= val(b) && val(e) >= 0real ==> val(a.power(e)) <= val(b.power(e))
    &&& forall|a: N, e: N|
        0real < val(a) && 0real <= val(e) <= 1real ==> {
            let power = #[trigger] val(a.power(e));
            (val(a) <= power <= 1real) || (1real <= power <= val(a))
        }
    &&& forall|a: N, n: i32|
        0real <= val(a) <= 1real && n >= 0 ==> 0real <= #[trigger] val(a.whole_power(n)) <= 1real
}

/// The arithmetic of `N` loses nothing: `val` reads every number as a real, and
/// each operation computes what the reals have for it.  Fractions of any size have
/// such a reading.  Numbers of a fixed size do not: they round, and they run out of
/// range.
pub open spec fn exact<N: Number>(val: spec_fn(N) -> real) -> bool {
    linear(val) && multiplicative(val)
}

/// Law: exact arithmetic rounds by nothing, within any limit, and keeps all order.
pub proof fn law_exact_arithmetic_rounds_nothing<N: Number>(val: spec_fn(N) -> real, limit: real)
    requires
        exact(val),
    ensures
        linear_within(val, limit),
        rounds_down(val, limit, 0real),
        keeps_order(val),
{
    reveal(multiplicative);
    assert(rounds_down(val, limit, 0real)) by {
        reveal(rounds_down);
    }
    assert(keeps_order(val)) by {
        reveal(keeps_order);
        assert forall|a: N, b: N, c: N, d: N|
            #![trigger val(a.product(c)), val(b.product(d))]
            0real <= val(a) <= val(b) && 0real <= val(c) <= val(d) implies 0real <= val(
            a.product(c),
        ) <= val(b.product(d)) by {
            lemma_products_in_order(val(a), val(b), val(c), val(d));
        }
        assert forall|a: N, b: N, c: N|
            #![trigger val(a.product(c)), val(b.product(c))]
            val(a) <= val(b) && 0real <= val(c) implies val(a.product(c)) <= val(
            b.product(c),
        ) by {
            let (x, y, z) = (val(a), val(b), val(c));
            assert(x * z <= y * z) by (nonlinear_arith)
                requires
                    x <= y,
                    0real <= z,
            ;
        }
        assert forall|a: N, b: N| val(a) <= 0real && 0real <= val(b) implies #[trigger] val(
            a.product(b),
        ) <= 0real by {
            let (x, y) = (val(a), val(b));
            assert(x * y <= 0real) by (nonlinear_arith)
                requires
                    x <= 0real,
                    0real <= y,
            ;
        }
        assert forall|a: N, b: N, c: N, d: N|
            #![trigger val(a.quotient(d)), val(b.quotient(c))]
            0real <= val(a) <= val(b) && 0real < val(c) <= val(d) implies 0real <= val(
            a.quotient(d),
        ) <= val(b.quotient(c)) by {
            lemma_quotients_in_order(val(a), val(b), val(c), val(d));
        }
        assert forall|a: N, b: N| val(a) <= 0real && 0real < val(b) implies #[trigger] val(
            a.quotient(b),
        ) <= 0real by {
            let (x, y) = (val(a), val(b));
            assert(x / y <= 0real) by (nonlinear_arith)
                requires
                    x <= 0real,
                    0real < y,
            ;
        }
    }
}

/// A product within the range is rounded down.
pub proof fn lemma_product<N: Number>(
    val: spec_fn(N) -> real,
    limit: real,
    unit: real,
    a: N,
    b: N,
)
    requires
        rounds_down(val, limit, unit),
        fits(limit, val(a) * val(b)),
    ensures
        rounded_down(val(a) * val(b), val(a.product(b)), unit),
        0real <= unit,
{
    reveal(rounds_down);
}

/// A quotient within the range is rounded down.
pub proof fn lemma_quotient<N: Number>(
    val: spec_fn(N) -> real,
    limit: real,
    unit: real,
    a: N,
    b: N,
)
    requires
        rounds_down(val, limit, unit),
        val(b) != 0real,
        fits(limit, val(a) / val(b)),
    ensures
        rounded_down(val(a) / val(b), val(a.quotient(b)), unit),
        0real <= unit,
{
    reveal(rounds_down);
}

/// A whole power of a number between zero and one falls short of that of the reals by
/// at most a unit for each factor.
pub proof fn lemma_whole_power<N: Number>(
    val: spec_fn(N) -> real,
    limit: real,
    unit: real,
    a: N,
    n: i32,
)
    requires
        rounds_down(val, limit, unit),
        repeats(val, limit, unit),
        limit >= 1real,
        0real <= val(a) <= 1real,
        0 <= n,
    ensures
        ({
            let ideal = real_power(val(a), n as nat);
            &&& ideal - n as real * unit <= val(a.whole_power(n)) <= ideal
            &&& 0real <= val(a.whole_power(n)) <= 1real
            &&& 0real <= ideal <= 1real
        }),
    decreases n,
{
    reveal(repeats);
    assert(0real <= unit) by {
        reveal(rounds_down);
    }
    let x = val(a);
    if n == 0 {
        assert(0real * unit == 0real) by (nonlinear_arith);
        assert(val(a.whole_power(0)) == 1real);
    } else {
        let k = (n - 1) as i32;
        lemma_whole_power(val, limit, unit, a, k);
        let (w, ideal) = (val(a.whole_power(k)), real_power(x, k as nat));
        lemma_products_in_order(w, 1real, x, 1real);
        lemma_products_in_order(ideal, 1real, x, 1real);
        let y = val(a.whole_power(n));
        assert(rounded_down(w * x, y, unit));
        let lost = k as real * unit;
        assert(ideal * x - lost <= w * x <= ideal * x) by (nonlinear_arith)
            requires
                ideal - lost <= w <= ideal,
                0real <= x <= 1real,
                0real <= lost,
        ;
        assert(0real <= lost) by (nonlinear_arith)
            requires
                lost == k as real * unit,
                0real <= unit,
                0real <= k as real,
        ;
        assert(n as real * unit == lost + unit) by (nonlinear_arith)
            requires
                lost == k as real * unit,
                n as real == k as real + 1real,
        ;
        assert(real_power(x, n as nat) == ideal * x);
    }
}

/// Products of reals grow with their factors.
pub proof fn lemma_products_in_order(a: real, b: real, c: real, d: real)
    requires
        0real <= a <= b,
        0real <= c <= d,
    ensures
        0real <= a * c <= b * d,
{
    assert(0real <= a * c) by (nonlinear_arith)
        requires
            0real <= a,
            0real <= c,
    ;
    assert(a * c <= b * c) by (nonlinear_arith)
        requires
            a <= b,
            0real <= c,
    ;
    assert(b * c <= b * d) by (nonlinear_arith)
        requires
            0real <= b,
            c <= d,
    ;
}

/// Quotients of reals grow with what is divided and shrink with what divides.
pub proof fn lemma_quotients_in_order(a: real, b: real, c: real, d: real)
    requires
        0real <= a <= b,
        0real < c <= d,
    ensures
        0real <= a / d <= b / c,
{
    let (p, q) = (a / d, b / c);
    assert(p * d == a && q * c == b) by (nonlinear_arith)
        requires
            p == a / d,
            q == b / c,
            0real < c,
            0real < d,
    ;
    assert(0real <= p <= q) by (nonlinear_arith)
        requires
            p * d == a,
            q * c == b,
            0real <= a <= b,
            0real < c <= d,
    ;
}

} // verus!
