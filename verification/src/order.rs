//! How binary64 arithmetic keeps the order of numbers, and where it is exact.
use crate::binary64::{low_magnitude, Binary64};
use crate::datum::{lemma_nearest_whole, lemma_whole_order, magnitude, settled, top, unit, Datum};
use crate::rounding::{
    fits, lemma_rounded_exact, lemma_rounded_fits, lemma_rounded_monotone, lemma_spans, rounded,
    HALF_SPAN, SPAN,
};
use vstd::arithmetic::div_mod::lemma_fundamental_div_mod;
use vstd::arithmetic::power2::{
    lemma2_to64, lemma_pow2_adds, lemma_pow2_pos, lemma_pow2_strictly_increases, pow2,
};
use vstd::prelude::*;

verus! {

impl Datum {
    /// A datum of the format: a finite magnitude has at most 53 significant bits and lies
    /// below the infinities.
    pub open spec fn proper(self) -> bool {
        match self {
            Datum::Finite { mag, .. } => mag < top() && fits(mag as int),
            _ => true,
        }
    }
}

/// Every binary64 number stands for a datum of the format.
pub proof fn lemma_proper(x: Binary64)
    ensures
        x@.proper(),
{
    let low = x.bits as int % 0x8000_0000_0000_0000;
    if low < 0x7ff0_0000_0000_0000 {
        crate::binary64::lemma_low_finite(low);
        let e = low / HALF_SPAN as int;
        let f = low % HALF_SPAN as int;
        lemma2_to64();
        if e <= 0 {
            assert(f * pow2(0) == f) by (nonlinear_arith)
                requires
                    pow2(0) == 1,
            ;
            assert(fits(f));
        } else {
            assert((HALF_SPAN + f) * pow2((e - 1) as nat) == low_magnitude(low));
            assert(fits(low_magnitude(low)));
        }
    }
}

/// Where the datum of an exact magnitude lies.
pub proof fn lemma_settled(neg: bool, num: int, den: int)
    requires
        num >= 0,
        den > 0,
    ensures
        rounded(num, den) >= 0,
        settled(neg, num, den).proper(),
        !(settled(neg, num, den) is Nan),
        settled(neg, num, den).place() == ({
            let m = rounded(num, den);
            let m = if m >= top() {
                top() as int
            } else {
                m
            };
            if neg {
                -m
            } else {
                m
            }
        }),
        num == 0 ==> settled(neg, num, den) == (Datum::Finite { neg, mag: 0 }),
{
    lemma2_to64();
    lemma_pow2_pos(2098);
    lemma_rounded_exact(0, 0, den);
    assert((0 * pow2(0)) * den == 0 && 0 * pow2(0) == 0) by (nonlinear_arith);
    assert(0 * den <= num * den) by (nonlinear_arith)
        requires
            num >= 0,
            den > 0,
    ;
    lemma_rounded_monotone(0, den, num, den);
    lemma_rounded_fits(num, den);
}

/// The magnitude of a signed quotient, rounded: the order of quotients is kept.
proof fn lemma_signed_monotone(n1: int, d1: int, n2: int, d2: int)
    requires
        d1 > 0,
        d2 > 0,
        n1 * d2 <= n2 * d1,
    ensures
        settled(n1 < 0, magnitude(n1), d1).le(settled(n2 < 0, magnitude(n2), d2)),
{
    lemma_settled(n1 < 0, magnitude(n1), d1);
    lemma_settled(n2 < 0, magnitude(n2), d2);
    if n1 >= 0 {
        assert(n2 >= 0) by (nonlinear_arith)
            requires
                n1 * d2 <= n2 * d1,
                n1 >= 0,
                d1 > 0,
                d2 > 0,
        ;
        lemma_rounded_monotone(n1, d1, n2, d2);
    } else if n2 < 0 {
        assert((-n2) * d1 <= (-n1) * d2) by (nonlinear_arith)
            requires
                n1 * d2 <= n2 * d1,
        ;
        lemma_rounded_monotone(-n2, d2, -n1, d1);
    }
}

/// A sum with a finite number is a number.
pub proof fn lemma_plus_number(a: Datum, c: Datum)
    requires
        !(a is Nan),
        c.is_finite(),
    ensures
        !(a.plus(c) is Nan),
        a.proper() ==> a.plus(c).proper(),
{
    if a is Finite {
        let s = a.place() + c.place();
        lemma_settled(s < 0, magnitude(s), 1);
        lemma_rounded_zero_fits();
    }
}

proof fn lemma_rounded_zero_fits()
    ensures
        fits(0),
        0 < top(),
{
    lemma2_to64();
    lemma_pow2_pos(2098);
    assert(0 * pow2(0) == 0) by (nonlinear_arith);
}

/// Adding the same finite number keeps the order.
pub proof fn lemma_plus_monotone(a: Datum, b: Datum, c: Datum)
    requires
        a.le(b),
        a.proper(),
        b.proper(),
        c.is_finite(),
    ensures
        a.plus(c).le(b.plus(c)),
{
    lemma_pow2_pos(2098);
    if a is Finite && b is Finite {
        let s = a.place() + c.place();
        let t = b.place() + c.place();
        lemma_settled(s < 0, magnitude(s), 1);
        lemma_settled(t < 0, magnitude(t), 1);
        lemma_settled(false, 0, 1);
        lemma_signed_monotone(s, 1, t, 1);
    } else if a is Finite {
        let s = a.place() + c.place();
        lemma_settled(s < 0, magnitude(s), 1);
    } else if b is Finite {
        let t = b.place() + c.place();
        lemma_settled(t < 0, magnitude(t), 1);
    }
}

/// A sum does not depend on the order of its terms, but for the sign of nothing.
pub proof fn lemma_plus_commutes(a: Datum, b: Datum)
    ensures
        a.plus(b) == b.plus(a),
{
}

/// Multiplying by the same number that is not negative keeps the order, where the products
/// are numbers.
pub proof fn lemma_times_monotone(c: Datum, a: Datum, b: Datum)
    requires
        a.le(b),
        a.proper(),
        b.proper(),
        c.is_finite(),
        c.place() >= 0,
        !(c.times(a) is Nan),
        !(c.times(b) is Nan),
    ensures
        c.times(a).le(c.times(b)),
        c.times(a).proper(),
        c.times(b).proper(),
        c.place() == 0 ==> c.times(a).place() == 0,
{
    lemma_pow2_pos(1074);
    lemma_pow2_pos(2098);
    let one = unit() as int;
    if let Datum::Finite { neg: cn, mag: cm } = c {
        if let Datum::Finite { neg: an, mag: am } = a {
            assert((cm * am) as int >= 0) by (nonlinear_arith)
                requires
                    cm >= 0,
                    am >= 0,
            ;
            lemma_settled(cn != an, (cm * am) as int, one);
            if cm == 0 {
                assert(cm * am == 0) by (nonlinear_arith)
                    requires
                        cm == 0,
                ;
            }
        }
        if let Datum::Finite { neg: bn, mag: bm } = b {
            assert((cm * bm) as int >= 0) by (nonlinear_arith)
                requires
                    cm >= 0,
                    bm >= 0,
            ;
            lemma_settled(cn != bn, (cm * bm) as int, one);
            if cm == 0 {
                assert(cm * bm == 0) by (nonlinear_arith)
                    requires
                        cm == 0,
                ;
            }
        }
        if cm > 0 && a is Finite && b is Finite {
            let p = cm * a.place();
            let q = cm * b.place();
            assert(p * one <= q * one) by (nonlinear_arith)
                requires
                    p == cm * a.place(),
                    q == cm * b.place(),
                    a.place() <= b.place(),
                    cm > 0,
                    one > 0,
            ;
            lemma_product_sign(c, a);
            lemma_product_sign(c, b);
            lemma_signed_monotone(p, one, q, one);
        }
    }
}

/// A product by a positive finite number, as one of signed numbers.
proof fn lemma_product_sign(c: Datum, a: Datum)
    requires
        c is Finite,
        a is Finite,
        c.place() > 0,
    ensures
        c.times(a).place() == settled(
            c.place() * a.place() < 0,
            magnitude(c.place() * a.place()),
            unit() as int,
        ).place(),
{
    lemma_pow2_pos(1074);
    let one = unit() as int;
    let cm = c->mag as int;
    let am = a->mag as int;
    assert(cm * am >= 0) by (nonlinear_arith)
        requires
            cm >= 0,
            am >= 0,
    ;
    lemma_settled(true, cm * am, one);
    lemma_settled(false, cm * am, one);
    assert(cm * (-am) == -(cm * am)) by (nonlinear_arith);
    if am == 0 {
        assert(cm * am == 0) by (nonlinear_arith)
            requires
                am == 0,
        ;
    } else {
        assert(cm * am > 0) by (nonlinear_arith)
            requires
                cm > 0,
                am > 0,
        ;
    }
}

/// Dividing by the same positive number keeps the order, where the quotients are numbers.
pub proof fn lemma_over_monotone(a: Datum, b: Datum, c: Datum)
    requires
        a.le(b),
        a.proper(),
        b.proper(),
        c.proper(),
        c.place() > 0,
        !(a.over(c) is Nan),
        !(b.over(c) is Nan),
    ensures
        a.over(c).le(b.over(c)),
        a.over(c).proper(),
        b.over(c).proper(),
{
    lemma_pow2_pos(1074);
    lemma_pow2_pos(2098);
    lemma_rounded_zero_fits();
    let one = unit() as int;
    if let Datum::Finite { neg: cn, mag: cm } = c {
        if let Datum::Finite { neg: an, mag: am } = a {
            assert((am * unit()) as int >= 0) by (nonlinear_arith)
                requires
                    am >= 0,
                    unit() >= 0,
            ;
            lemma_settled(an != cn, (am * unit()) as int, cm as int);
        }
        if let Datum::Finite { neg: bn, mag: bm } = b {
            assert((bm * unit()) as int >= 0) by (nonlinear_arith)
                requires
                    bm >= 0,
                    unit() >= 0,
            ;
            lemma_settled(bn != cn, (bm * unit()) as int, cm as int);
        }
        if a is Finite && b is Finite {
            let p = a.place() * one;
            let q = b.place() * one;
            assert(p * cm <= q * cm) by (nonlinear_arith)
                requires
                    p == a.place() * one,
                    q == b.place() * one,
                    a.place() <= b.place(),
                    cm >= 0,
                    one > 0,
            ;
            lemma_quotient_sign(a, c);
            lemma_quotient_sign(b, c);
            lemma_signed_monotone(p, cm as int, q, cm as int);
        }
    }
}

/// A quotient by a positive finite number, as one of signed numbers.
proof fn lemma_quotient_sign(a: Datum, c: Datum)
    requires
        c is Finite,
        a is Finite,
        c.place() > 0,
    ensures
        a.over(c).place() == settled(
            a.place() * unit() < 0,
            magnitude(a.place() * unit()),
            c.place(),
        ).place(),
{
    lemma_pow2_pos(1074);
    let one = unit() as int;
    let am = a->mag as int;
    assert(am * one >= 0) by (nonlinear_arith)
        requires
            am >= 0,
            one >= 0,
    ;
    lemma_settled(true, am * one, c.place());
    lemma_settled(false, am * one, c.place());
    assert((-am) * one == -(am * one)) by (nonlinear_arith);
    if am == 0 {
        assert(am * one == 0) by (nonlinear_arith)
            requires
                am == 0,
        ;
    } else {
        assert(am * one > 0) by (nonlinear_arith)
            requires
                am > 0,
                one > 0,
        ;
    }
}

/// A difference has the sign of the order of its terms.
pub proof fn lemma_minus_sign(a: Datum, b: Datum)
    requires
        a.is_finite(),
        b.is_finite(),
    ensures
        !(a.minus(b) is Nan),
        a.minus(b).proper(),
        b.place() <= a.place() ==> a.minus(b).place() >= 0,
        a.place() <= b.place() ==> a.minus(b).place() <= 0,
        b.place() < a.place() ==> a.minus(b).place() > 0,
{
    let s = a.place() - b.place();
    assert(b.negated().place() == -b.place());
    lemma_settled(s < 0, magnitude(s), 1);
    lemma_rounded_zero_fits();
    if s > 0 {
        // A whole number of units of at least one does not round to nothing.
        lemma2_to64();
        lemma_rounded_exact(1, 0, 1);
        assert((1 * pow2(0)) * 1 == 1 && 1 * pow2(0) == 1) by (nonlinear_arith)
            requires
                pow2(0) == 1,
        ;
        lemma_rounded_monotone(1, 1, s, 1);
        lemma_pow2_pos(2098);
    }
}

/// A datum of the format plus nothing is itself.
pub proof fn lemma_plus_nothing(a: Datum, z: Datum)
    requires
        a.proper(),
        a.is_finite(),
        z.is_finite(),
        z.place() == 0,
    ensures
        a.plus(z).place() == a.place(),
        a.plus(z).is_finite(),
{
    let x = magnitude(a.place());
    if a.place() != 0 {
        let (m, k) = choose|m: int, k: nat| 0 <= m < SPAN && x == #[trigger] (m * pow2(k));
        lemma_rounded_exact(m, k, 1);
        assert((m * pow2(k)) * 1 == m * pow2(k)) by (nonlinear_arith);
    }
}

/// Nothing times a finite number is nothing.
pub proof fn lemma_nothing_times(z: Datum, a: Datum)
    requires
        z.is_finite(),
        a.is_finite(),
        z.place() == 0,
    ensures
        z.times(a).is_finite(),
        z.times(a).place() == 0,
{
    lemma_pow2_pos(1074);
    let zm = z->mag;
    let am = a->mag;
    assert(zm * am == 0) by (nonlinear_arith)
        requires
            zm == 0,
    ;
    lemma_settled((z->Finite_neg) != (a->Finite_neg), 0, unit() as int);
}

/// One times a datum of the format is itself.
pub proof fn lemma_one_times(a: Datum)
    requires
        a.proper(),
        a.is_finite(),
    ensures
        Datum::whole(1).times(a) == a,
{
    lemma_pow2_pos(1074);
    let one = unit() as int;
    let x = a->mag as int;
    let (m, k) = choose|m: int, k: nat| 0 <= m < SPAN && x == #[trigger] (m * pow2(k));
    lemma_rounded_exact(m, k, one);
    assert(1 * unit() == one);
    assert(one * x == (m * pow2(k)) * one) by (nonlinear_arith)
        requires
            x == m * pow2(k),
    ;
}

/// A positive finite number over itself is one.
pub proof fn lemma_over_itself(a: Datum)
    requires
        a.is_finite(),
        a.place() > 0,
    ensures
        a.over(a) == Datum::whole(1),
{
    lemma_pow2_pos(1074);
    lemma_nearest_whole(1);
    let x = a->mag as int;
    lemma_rounded_exact(1, 1074, x);
    assert((1 * pow2(1074)) * x == x * unit()) by (nonlinear_arith)
        requires
            unit() == pow2(1074),
    ;
    assert(1 * pow2(1074) == unit());
    assert(1 * unit() == unit());
}

/// A whole number of at most 53 bits is a datum of the format.
pub proof fn lemma_whole_proper(n: int)
    requires
        0 <= n < SPAN,
    ensures
        Datum::whole(n).proper(),
{
    lemma_nearest_whole(n);
    assert(fits(n * pow2(1074)));
}

/// Sums of whole numbers of at most 53 bits are exact.
pub proof fn lemma_whole_sum(a: int, b: int)
    requires
        -SPAN < a < SPAN,
        -SPAN < b < SPAN,
        -SPAN < a + b < SPAN,
    ensures
        Datum::whole(a).plus(Datum::whole(b)) == Datum::whole(a + b),
{
    lemma_whole_order(a, b);
    lemma_pow2_pos(1074);
    let s = a + b;
    assert(s * unit() == a * unit() + b * unit()) by (nonlinear_arith)
        requires
            s == a + b,
    ;
    assert((s * unit() == 0) == (s == 0) && (s * unit() < 0) == (s < 0)) by (nonlinear_arith)
        requires
            unit() > 0,
    ;
    lemma_nearest_whole(magnitude(s));
    if s < 0 {
        assert(-(s * unit()) == magnitude(s) * unit()) by (nonlinear_arith)
            requires
                magnitude(s) == -s,
        ;
    }
}

/// Between two whole numbers in the range of `u32` the nearest whole number lies there too.
pub proof fn lemma_whole_u32_bounds(x: Datum, low: u32, high: u32)
    requires
        low <= high,
        Datum::whole(low as int).le(x),
        x.le(Datum::whole(high as int)),
    ensures
        low <= x.whole_u32() <= high,
{
    lemma_pow2_pos(1074);
    lemma_whole_order(low as int, high as int);
    lemma_nearest_whole(high as int);
    lemma_nearest_whole(low as int);
    let one = unit() as int;
    assert(low * one >= 0) by (nonlinear_arith)
        requires
            low >= 0,
            one > 0,
    ;
    if let Datum::Finite { neg, mag } = x {
        let n = (2 * mag + unit()) / (2 * unit());
        let r = (2 * mag + unit()) % (2 * unit());
        lemma_fundamental_div_mod((2 * mag + unit()) as int, 2 * one);
        if !neg {
            assert(low <= n <= high) by (nonlinear_arith)
                requires
                    2 * mag + one == (2 * one) * n + r,
                    0 <= r < 2 * one,
                    low * one <= mag <= high * one,
                    one > 0,
            ;
        } else {
            assert(low == 0) by (nonlinear_arith)
                requires
                    low * one <= 0,
                    one > 0,
                    low >= 0,
            ;
        }
    }
}

/// What the nearest whole number is, of a number that is not negative and at most one in the
/// range of `u32`.
pub proof fn lemma_whole_u32_is_nearest(x: Datum, high: u32)
    requires
        Datum::whole(0).le(x),
        x.le(Datum::whole(high as int)),
    ensures
        2 * x.whole_u32() * unit() <= 2 * x.place() + unit(),
        2 * x.place() + unit() < 2 * (x.whole_u32() + 1) * unit(),
{
    lemma_pow2_pos(1074);
    lemma_whole_order(0, high as int);
    lemma_nearest_whole(high as int);
    lemma_whole_u32_bounds(x, 0, high);
    let one = unit() as int;
    if let Datum::Finite { neg, mag } = x {
        let n = (2 * mag + unit()) / (2 * unit());
        let r = (2 * mag + unit()) % (2 * unit());
        lemma_fundamental_div_mod((2 * mag + unit()) as int, 2 * one);
        if neg {
            assert(2 * 0 * one == 0 && 2 * (0 + 1) * one == 2 * one) by (nonlinear_arith);
        } else {
            assert(n <= high) by (nonlinear_arith)
                requires
                    2 * mag + one == (2 * one) * n + r,
                    0 <= r < 2 * one,
                    mag <= high * one,
                    one > 0,
            ;
            assert(2 * n * one <= 2 * mag + one && 2 * mag + one < 2 * (n + 1) * one)
                by (nonlinear_arith)
                requires
                    2 * mag + one == (2 * one) * n + r,
                    0 <= r < 2 * one,
            ;
        }
    }
}

/// Two to the power -20, in units. Numbers that count such grains, up to two to the power 53 of
/// them, are data of the format.
pub open spec fn grain() -> nat {
    pow2(1054)
}

/// A number of grains is its own rounding, and is finite; and there are two to the power 20 of
/// them to one.
pub proof fn lemma_grains(k: int)
    requires
        0 <= k < SPAN,
    ensures
        rounded(k * grain(), 1) == k * grain(),
        0 <= k * grain() < top(),
        grain() > 0,
        unit() == 0x10_0000 * grain(),
{
    lemma_rounded_exact(k, 1054, 1);
    lemma_pow2_pos(1054);
    lemma_spans();
    lemma2_to64();
    lemma_pow2_adds(53, 1054);
    lemma_pow2_adds(20, 1054);
    lemma_pow2_strictly_increases(1107, 2098);
    assert((k * pow2(1054)) * 1 == k * grain());
    assert(0 <= k * grain() < SPAN * grain()) by (nonlinear_arith)
        requires
            0 <= k < SPAN,
            grain() > 0,
    ;
}

/// A sum that is at least a number of grains is rounded to no less.
pub proof fn lemma_plus_at_least(a: Datum, x: Datum, k: int)
    requires
        a.is_finite(),
        x.is_finite() || x.place() >= 0,
        !(x is Nan),
        0 <= k < SPAN,
        a.place() + x.place() >= k * grain(),
    ensures
        !(a.plus(x) is Nan),
        a.plus(x).place() >= k * grain(),
{
    lemma_grains(k);
    lemma_pow2_pos(2098);
    if x is Finite {
        let s = a.place() + x.place();
        lemma_settled(false, s, 1);
        lemma_rounded_monotone(k * grain(), 1, s, 1);
    }
}

/// A sum that is at most a number of grains is rounded to no more.
pub proof fn lemma_plus_at_most(a: Datum, x: Datum, k: int)
    requires
        a.is_finite(),
        x.is_finite() || x.place() <= 0,
        !(x is Nan),
        0 <= k < SPAN,
        a.place() + x.place() <= k * grain(),
    ensures
        !(a.plus(x) is Nan),
        a.plus(x).place() <= k * grain(),
{
    lemma_grains(k);
    lemma_pow2_pos(2098);
    if x is Finite {
        let s = a.place() + x.place();
        lemma_settled(s < 0, magnitude(s), 1);
        if s > 0 {
            lemma_rounded_monotone(s, 1, k * grain(), 1);
        }
    }
}

/// A product of two numbers that are not negative which is at most a number of grains is rounded
/// to no more.
pub proof fn lemma_times_at_most(a: Datum, b: Datum, k: int)
    requires
        a.is_finite(),
        b.is_finite(),
        a.place() >= 0,
        b.place() >= 0,
        0 <= k < SPAN,
        a.place() * b.place() <= (k * grain()) * unit(),
    ensures
        a.times(b).is_finite(),
        a.times(b).place() <= k * grain(),
{
    let m = a->mag as int;
    let n = b->mag as int;
    let one = unit() as int;
    lemma_grains(k);
    lemma_pow2_pos(1074);
    assert(m == a.place() && n == b.place());
    assert(m * n >= 0) by (nonlinear_arith)
        requires
            m >= 0,
            n >= 0,
    ;
    assert((k * grain()) * one >= 0);
    lemma_rounded_exact(k, 1054, one);
    assert((m * n) * one <= ((k * grain()) * one) * one) by (nonlinear_arith)
        requires
            m * n <= (k * grain()) * one,
            one > 0,
    ;
    lemma_rounded_monotone(m * n, one, (k * grain()) * one, one);
    lemma_settled((a->Finite_neg) != (b->Finite_neg), m * n, one);
}

} // verus!
