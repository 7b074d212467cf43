//! How far the results of binary64 arithmetic lie from the exact ones.
use crate::datum::{lemma_nearest_whole, lemma_whole_order, magnitude, top, unit, Datum};
use crate::order::lemma_settled;
use crate::rounding::{
    exponent, lemma_exponent, lemma_rounded_exact, lemma_rounded_monotone, lemma_spans,
    nearest_even, rounded, HALF_SPAN, SPAN,
};
use vstd::arithmetic::div_mod::lemma_fundamental_div_mod;
use vstd::arithmetic::power2::{
    lemma2_to64, lemma_pow2_adds, lemma_pow2_pos, lemma_pow2_strictly_increases, pow2,
};
use vstd::prelude::*;

verus! {

/// One over the number of significands, in units.
pub open spec fn bit() -> nat {
    pow2(1021)
}

/// Two to the power -16, in units: far less than can be told from a speed in whole rpm.
pub open spec fn hair() -> nat {
    pow2(1058)
}

pub proof fn lemma_scales()
    ensures
        bit() > 0,
        hair() > 0,
        unit() == SPAN * bit(),
        hair() == 0x20_0000_0000 * bit(),
        unit() == 0x1_0000 * hair(),
{
    lemma_spans();
    lemma2_to64();
    lemma_pow2_pos(1021);
    lemma_pow2_pos(1058);
    lemma_pow2_adds(53, 1021);
    lemma_pow2_adds(37, 1021);
    lemma_pow2_adds(16, 1058);
    vstd::arithmetic::power2::lemma2_to64_rest();
}

/// A rounded quotient lies as near as the format allows.
pub proof fn lemma_rounded_error(num: int, den: int)
    requires
        num >= 0,
        den > 0,
    ensures
        magnitude(rounded(num, den) * den - num) * SPAN <= num + HALF_SPAN * den,
        den == 1 ==> magnitude(rounded(num, den) - num) * SPAN <= num,
{
    let e = exponent(num, den);
    let p = pow2(e) as int;
    lemma_exponent(num, den);
    lemma_pow2_pos(e);
    let q = den * p;
    assert(q > 0) by (nonlinear_arith)
        requires
            q == den * p,
            den > 0,
            p > 0,
    ;
    let n = nearest_even(num, q);
    lemma_fundamental_div_mod(num, q);
    let a = num / q;
    let b = num % q;
    assert((a + 1) * q == q * a + q && a * q == q * a) by (nonlinear_arith);
    assert(2 * magnitude(n * q - num) <= q);
    let r = rounded(num, den);
    assert(r * den == n * q) by (nonlinear_arith)
        requires
            r == n * p,
            q == den * p,
    ;
    let x = magnitude(r * den - num);
    if e == 0 {
        lemma2_to64();
        assert(q == den) by (nonlinear_arith)
            requires
                q == den * p,
                p == 1,
        ;
        assert(x * SPAN <= HALF_SPAN * den) by (nonlinear_arith)
            requires
                2 * x <= den,
        ;
        if den == 1 {
            assert(x == 0);
            assert(r * 1 == r);
        }
    } else {
        assert(x * SPAN <= num) by (nonlinear_arith)
            requires
                2 * x <= q,
                num >= HALF_SPAN * q,
        ;
        assert(HALF_SPAN * den >= 0) by (nonlinear_arith)
            requires
                den > 0,
        ;
        if den == 1 {
            assert(r * 1 == r);
        }
    }
}

/// A quotient that is not large is rounded to a finite number.
pub proof fn lemma_rounded_finite(num: int, den: int)
    requires
        num >= 0,
        den > 0,
        num <= pow2(2097) * den,
    ensures
        rounded(num, den) < top(),
        rounded(num, den) <= pow2(2097),
{
    lemma_rounded_exact(1, 2097, den);
    assert((1 * pow2(2097)) * den == pow2(2097) * den && 1 * pow2(2097) == pow2(2097));
    assert(num * den <= (pow2(2097) * den) * den) by (nonlinear_arith)
        requires
            num <= pow2(2097) * den,
            den > 0,
    ;
    lemma_rounded_monotone(num, den, pow2(2097) * den, den);
    lemma_pow2_strictly_increases(2097, 2098);
}

/// A sum of finite numbers.
pub proof fn lemma_plus_error(a: Datum, b: Datum)
    requires
        a.is_finite(),
        b.is_finite(),
        magnitude(a.place() + b.place()) <= pow2(2097),
    ensures
        a.plus(b).is_finite(),
        magnitude(a.plus(b).place() - (a.place() + b.place())) * SPAN <= magnitude(
            a.place() + b.place(),
        ),
{
    let s = a.place() + b.place();
    lemma_rounded_error(magnitude(s), 1);
    assert(pow2(2097) * 1 == pow2(2097));
    lemma_rounded_finite(magnitude(s), 1);
    lemma_settled(s < 0, magnitude(s), 1);
}

/// A product of finite numbers.
pub proof fn lemma_times_error(a: Datum, b: Datum)
    requires
        a.is_finite(),
        b.is_finite(),
        magnitude(a.place() * b.place()) <= pow2(2097) * unit(),
    ensures
        a.times(b).is_finite(),
        magnitude(a.times(b).place() * unit() - a.place() * b.place()) * SPAN <= magnitude(
            a.place() * b.place(),
        ) + HALF_SPAN * unit(),
{
    let m = a->mag as int;
    let n = b->mag as int;
    let one = unit() as int;
    let x = a.place() * b.place();
    lemma_pow2_pos(1074);
    assert(m * n >= 0 && (x == m * n || x == -(m * n))) by (nonlinear_arith)
        requires
            m >= 0,
            n >= 0,
            a.place() == m || a.place() == -m,
            b.place() == n || b.place() == -n,
            x == a.place() * b.place(),
    ;
    let neg = (a->Finite_neg) != (b->Finite_neg);
    assert(x == (if neg {
        -(m * n)
    } else {
        m * n
    })) by {
        if a->Finite_neg && b->Finite_neg {
            assert((-m) * (-n) == m * n) by (nonlinear_arith);
        } else if a->Finite_neg {
            assert((-m) * n == -(m * n)) by (nonlinear_arith);
        } else if b->Finite_neg {
            assert(m * (-n) == -(m * n)) by (nonlinear_arith);
        }
    }
    lemma_rounded_error(m * n, one);
    lemma_rounded_finite(m * n, one);
    lemma_settled(neg, m * n, one);
    let r = rounded(m * n, one);
    assert((-r) * one - (-(m * n)) == -(r * one - m * n)) by (nonlinear_arith);
}

/// A quotient of a finite number and a positive one.
pub proof fn lemma_over_error(a: Datum, b: Datum)
    requires
        a.is_finite(),
        b.is_finite(),
        a.place() >= 0,
        b.place() > 0,
        a.place() * unit() <= pow2(2097) * b.place(),
    ensures
        a.over(b).is_finite(),
        a.over(b).place() >= 0,
        magnitude(a.over(b).place() * b.place() - a.place() * unit()) * SPAN <= a.place() * unit()
            + HALF_SPAN * b.place(),
{
    let m = a->mag as int;
    let n = b->mag as int;
    let one = unit() as int;
    lemma_pow2_pos(1074);
    assert(m == a.place() && n == b.place());
    assert(m * one >= 0) by (nonlinear_arith)
        requires
            m >= 0,
            one > 0,
    ;
    lemma_rounded_error(m * one, n);
    lemma_rounded_finite(m * one, n);
    lemma_settled((a->Finite_neg) != (b->Finite_neg), m * one, n);
    if m == 0 {
        assert(0 * one == 0) by (nonlinear_arith);
    }
}

/// Rounding is to the nearest number of 53 bits, and to the even one of two that are as near. The
/// quotient is told by a whole number of steps, each of a power of two and as fine as leaves 53
/// bits, or of one unit where that is finer than the format.
pub proof fn law_rounding_is_to_the_nearest_and_even(num: int, den: int) -> (parts: (int, nat))
    requires
        num >= 0,
        den > 0,
    ensures
        ({
            let (n, e) = parts;
            let step = den * pow2(e);
            &&& rounded(num, den) == n * pow2(e)
            &&& num < 0x20_0000_0000_0000 * step
            &&& e > 0 ==> num >= 0x10_0000_0000_0000 * step
            &&& 2 * magnitude(n * step - num) <= step
            &&& 2 * magnitude(n * step - num) == step ==> n % 2 == 0
        }),
{
    let e = exponent(num, den);
    let step = den * pow2(e);
    lemma_exponent(num, den);
    lemma_pow2_pos(e);
    assert(step > 0) by (nonlinear_arith)
        requires
            step == den * pow2(e),
            den > 0,
            pow2(e) > 0,
    ;
    let n = nearest_even(num, step);
    lemma_fundamental_div_mod(num, step);
    let q = num / step;
    assert((q + 1) * step == step * q + step && q * step == step * q) by (nonlinear_arith);
    (n, e)
}

/// Arithmetic on finite numbers is exact and then rounded once: a sum, a product and a quotient
/// have the sign and the rounded magnitude of the exact one, and where that is beyond the format
/// they are infinite.
pub proof fn law_arithmetic_is_rounded_once(a: Datum, b: Datum)
    requires
        a.is_finite(),
        b.is_finite(),
    ensures
        ({
            let x = a.place();
            let y = b.place();
            let sum = rounded(magnitude(x + y), 1);
            let product = rounded(magnitude(x * y), unit() as int);
            &&& magnitude(a.plus(b).place()) == (if sum < top() {
                sum
            } else {
                top() as int
            })
            &&& magnitude(a.times(b).place()) == (if product < top() {
                product
            } else {
                top() as int
            })
            &&& x + y >= 0 ==> a.plus(b).place() >= 0
            &&& x + y <= 0 ==> a.plus(b).place() <= 0
            &&& x * y >= 0 ==> a.times(b).place() >= 0
            &&& x * y <= 0 ==> a.times(b).place() <= 0
            &&& a.minus(b).place() == a.plus(b.negated()).place()
            &&& b.negated().place() == -y
            &&& y != 0 ==> {
                let quotient = rounded(magnitude(x * unit()), magnitude(y));
                &&& magnitude(a.over(b).place()) == (if quotient < top() {
                    quotient
                } else {
                    top() as int
                })
                &&& x * y >= 0 ==> a.over(b).place() >= 0
                &&& x * y <= 0 ==> a.over(b).place() <= 0
            }
        }),
{
    let x = a.place();
    let y = b.place();
    let m = a->mag as int;
    let n = b->mag as int;
    let one = unit() as int;
    lemma_pow2_pos(1074);
    lemma_pow2_pos(2098);
    lemma_settled(x + y < 0, magnitude(x + y), 1);
    lemma_settled(false, 0, 1);
    assert(magnitude(x * y) == m * n && m * n >= 0) by (nonlinear_arith)
        requires
            m >= 0,
            n >= 0,
            x == m || x == -m,
            y == n || y == -n,
    ;
    assert(magnitude(x * one) == m * one && m * one >= 0) by (nonlinear_arith)
        requires
            m >= 0,
            one > 0,
            x == m || x == -m,
    ;
    let neg = (a->Finite_neg) != (b->Finite_neg);
    lemma_settled(neg, m * n, one);
    lemma_settled(neg, 0, one);
    assert(neg ==> x * y <= 0) by (nonlinear_arith)
        requires
            neg ==> (x == m && y == -n) || (x == -m && y == n),
            m >= 0,
            n >= 0,
    ;
    assert(!neg ==> x * y >= 0) by (nonlinear_arith)
        requires
            !neg ==> (x == m && y == n) || (x == -m && y == -n),
            m >= 0,
            n >= 0,
    ;
    if x * y == 0 {
        assert(m == 0 || n == 0) by (nonlinear_arith)
            requires
                x * y == 0,
                x == m || x == -m,
                y == n || y == -n,
        ;
        assert(m * n == 0) by (nonlinear_arith)
            requires
                m == 0 || n == 0,
        ;
    }
    if y != 0 {
        lemma_settled(neg, m * one, n);
        lemma_settled(neg, 0, n);
        if m == 0 {
            assert(0 * one == 0) by (nonlinear_arith);
        }
    }
}

/// What is not a number stays that in arithmetic, is in no order to anything, and gives way to a
/// number where the larger or the smaller of two is taken. Numbers are ordered by where they lie.
pub proof fn law_numbers_are_ordered_by_where_they_lie(a: Datum, b: Datum, low: Datum, high: Datum)
    ensures
        a.is_finite() <==> a is Finite,
        a.negated().place() == -a.place(),
        a.negated() is Nan <==> a is Nan,
        a.negated() is Infinite <==> a is Infinite,
        a.lt(b) <==> !(a is Nan) && !(b is Nan) && a.place() < b.place(),
        a.le(b) <==> !(a is Nan) && !(b is Nan) && a.place() <= b.place(),
        a is Nan || b is Nan ==> {
            &&& a.plus(b) is Nan
            &&& a.minus(b) is Nan
            &&& a.times(b) is Nan
            &&& a.over(b) is Nan
        },
        a is Nan ==> a.larger(b) == b && a.smaller(b) == b,
        b is Nan ==> a.larger(b) == a && a.smaller(b) == a,
        !(a is Nan) && !(b is Nan) ==> {
            &&& a.larger(b).place() == (if a.place() < b.place() {
                b.place()
            } else {
                a.place()
            })
            &&& a.smaller(b).place() == (if b.place() < a.place() {
                b.place()
            } else {
                a.place()
            })
        },
        a is Nan ==> a.held(low, high) is Nan,
        !(a is Nan) && low.le(high) ==> {
            &&& !(a.held(low, high) is Nan)
            &&& a.held(low, high).place() == (if a.place() < low.place() {
                low.place()
            } else if a.place() > high.place() {
                high.place()
            } else {
                a.place()
            })
        },
{
}

/// The whole number of a number is the nearest one, the greater of two that are as near, held to
/// the range of the type: nothing for a negative number and for none at all.
pub proof fn law_a_number_is_told_by_the_nearest_whole_one(x: Datum)
    ensures
        x is Nan ==> x.whole_u32() == 0,
        !(x is Nan) && x.place() <= 0 ==> x.whole_u32() == 0,
        x is Infinite && x.place() > 0 ==> x.whole_u32() == 0xffff_ffff,
        x is Finite && x.place() >= 0 && 2 * x.place() + unit() >= 0x2_0000_0000 * unit()
            ==> x.whole_u32() == 0xffff_ffff,
        x is Finite && x.place() >= 0 && 2 * x.place() + unit() < 0x2_0000_0000 * unit() ==> {
            let n = x.whole_u32() as int;
            (2 * n) * unit() <= 2 * x.place() + unit() < (2 * n + 2) * unit()
        },
{
    lemma_pow2_pos(1074);
    lemma_pow2_pos(2098);
    let one = unit() as int;
    if let Datum::Finite { neg, mag } = x {
        let y = 2 * mag as int + one;
        let n = y / (2 * one);
        let r = y % (2 * one);
        lemma_fundamental_div_mod(y, 2 * one);
        assert((2 * n) * one <= y && y < (2 * n + 2) * one) by (nonlinear_arith)
            requires
                y == (2 * one) * n + r,
                0 <= r < 2 * one,
        ;
        assert(n >= 0) by (nonlinear_arith)
            requires
                y < (2 * n + 2) * one,
                y > 0,
                one > 0,
        ;
        if y < 0x2_0000_0000 * one {
            assert(n <= 0xffff_ffff) by (nonlinear_arith)
                requires
                    (2 * n) * one <= y,
                    y < 0x2_0000_0000 * one,
                    one > 0,
            ;
        } else {
            assert(n >= 0x1_0000_0000) by (nonlinear_arith)
                requires
                    y < (2 * n + 2) * one,
                    y >= 0x2_0000_0000 * one,
                    one > 0,
            ;
        }
        if mag == 0 {
            assert(n == 0) by (nonlinear_arith)
                requires
                    (2 * n) * one <= one,
                    one > 0,
                    n >= 0,
            ;
        }
    }
}

/// What infinities give: two of one sign add up to that, and two of different signs to no number;
/// with a finite number they stay what they are. Their product with anything but nothing is
/// infinite, and with nothing it is no number. Over an infinity a finite number is nothing, and
/// over nothing a number is infinite, but nothing over nothing and infinity over infinity are no
/// number.
pub proof fn law_arithmetic_with_infinities(a: Datum, b: Datum)
    requires
        !(a is Nan),
        !(b is Nan),
        a.proper(),
        b.proper(),
    ensures
        a is Infinite && b is Infinite ==> a.plus(b) == (if a == b {
            a
        } else {
            Datum::Nan
        }),
        a is Infinite && b is Finite ==> a.plus(b) == a && b.plus(a) == a,
        a is Infinite && b.place() == 0 ==> a.times(b) is Nan && b.times(a) is Nan,
        a is Infinite && b.place() != 0 ==> {
            &&& a.times(b) is Infinite && b.times(a) is Infinite
            &&& (a.times(b).place() > 0) == ((a.place() > 0) == (b.place() > 0))
            &&& b.times(a) == a.times(b)
        },
        a is Infinite && b is Infinite ==> a.over(b) is Nan,
        a is Finite && b is Infinite ==> a.over(b).is_finite() && a.over(b).place() == 0,
        a.place() == 0 && b.place() == 0 ==> a.over(b) is Nan,
        a.place() != 0 && b is Finite && b.place() == 0 ==> a.over(b) is Infinite,
        a is Infinite && b is Finite && b.place() != 0 ==> a.over(b) is Infinite && (a.over(
            b,
        ).place() > 0) == ((a.place() > 0) == (b.place() > 0)),
{
    lemma_pow2_pos(2098);
}

/// What a whole number is: where it lies, exactly where it has no more than 53 bits and to the
/// nearest otherwise.
pub proof fn law_a_whole_number_lies_where_it_should(n: int)
    ensures
        -0x20_0000_0000_0000 < n < 0x20_0000_0000_0000 ==> Datum::nearest(n).is_finite()
            && Datum::nearest(n).place() == n * unit(),
        magnitude(Datum::nearest(n).place()) == (if rounded(magnitude(n) * unit(), 1) < top() {
            rounded(magnitude(n) * unit(), 1)
        } else {
            top() as int
        }),
        n >= 0 ==> Datum::nearest(n).place() >= 0,
        n <= 0 ==> Datum::nearest(n).place() <= 0,
        Datum::whole(n).is_finite(),
        Datum::whole(n).place() == n * unit(),
{
    let one = unit() as int;
    let m = magnitude(n);
    lemma_pow2_pos(1074);
    lemma_whole_order(n, n);
    assert(m * one >= 0) by (nonlinear_arith)
        requires
            m >= 0,
            one > 0,
    ;
    lemma_settled(n < 0, m * one, 1);
    assert(n < 0 ==> n * one == -(m * one)) by (nonlinear_arith)
        requires
            n < 0 ==> m == -n,
    ;
    if m < SPAN {
        lemma_nearest_whole(m);
    }
    if n == 0 {
        assert(0 * one == 0);
    }
}

} // verus!
