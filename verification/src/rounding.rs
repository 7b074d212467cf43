//! Rounding of exact quotients to the 53-bit significands of binary64.
//!
//! Magnitudes are counted in units of the smallest positive binary64 value, so
//! every finite value is a whole number of units and every exact result of an
//! addition, multiplication or division is a quotient of whole numbers.
use vstd::arithmetic::div_mod::{lemma_fundamental_div_mod, lemma_fundamental_div_mod_converse};
use vstd::arithmetic::mul::{lemma_mul_inequality_converse, lemma_mul_strict_inequality_converse};
use vstd::arithmetic::power2::{
    lemma2_to64, lemma2_to64_rest, lemma_pow2_adds, lemma_pow2_pos, lemma_pow2_strictly_increases,
    lemma_pow2_unfold, pow2,
};
use vstd::prelude::*;

verus! {

/// The smallest significand of a normal value: two to the power 52.
pub const HALF_SPAN: u64 = 0x10_0000_0000_0000;

/// The number of significands: two to the power 53.
pub const SPAN: u64 = 0x20_0000_0000_0000;

/// `num / den` as a whole number, the nearest one, and the even one of two that are as near.
pub open spec fn nearest_even(num: int, den: int) -> int {
    let q = num / den;
    let r = num % den;
    if 2 * r < den || (2 * r == den && q % 2 == 0) {
        q
    } else {
        q + 1
    }
}

/// `num / den` rounded to 53 significant bits: to the nearest whole number where it is
/// below [`SPAN`], else to the nearest multiple of the power of two that leaves 53 bits.
pub open spec fn rounded(num: int, den: int) -> int
    decreases (if num >= SPAN * den { num - SPAN * den + 1 } else { 0 }),
{
    if den <= 0 || num < SPAN * den {
        nearest_even(num, den)
    } else {
        2 * rounded(num, 2 * den)
    }
}

/// A whole number that has at most 53 significant bits.
pub open spec fn fits(x: int) -> bool {
    exists|m: int, k: nat| 0 <= m < SPAN && x == #[trigger] (m * pow2(k))
}

pub proof fn lemma_spans()
    ensures
        pow2(52) == HALF_SPAN,
        pow2(53) == SPAN,
{
    lemma2_to64_rest();
}

/// What the quotient and the remainder are, where both are known.
pub proof fn lemma_nearest_parts(num: int, den: int, q: int, r: int)
    requires
        den > 0,
        num == q * den + r,
        0 <= r < den,
    ensures
        num / den == q,
        num % den == r,
{
    lemma_fundamental_div_mod_converse(num, den, q, r);
}

/// Both terms of a quotient may be multiplied by the same number.
pub proof fn lemma_nearest_scaled(num: int, den: int, s: int)
    requires
        den > 0,
        s > 0,
    ensures
        nearest_even(num * s, den * s) == nearest_even(num, den),
{
    let q = num / den;
    let r = num % den;
    lemma_fundamental_div_mod(num, den);
    assert(0 <= r < den);
    assert(num * s == q * (den * s) + r * s) by (nonlinear_arith)
        requires
            num == den * q + r,
    ;
    assert(0 <= r * s < den * s && den * s > 0) by (nonlinear_arith)
        requires
            0 <= r < den,
            s > 0,
    ;
    lemma_nearest_parts(num * s, den * s, q, r * s);
    assert((2 * (r * s) < den * s) == (2 * r < den)) by (nonlinear_arith)
        requires
            s > 0,
    ;
    assert((2 * (r * s) == den * s) == (2 * r == den)) by (nonlinear_arith)
        requires
            s > 0,
    ;
}

/// The rounded value, once the power of two is known that leaves 53 bits.
pub proof fn lemma_rounded_at(num: int, den: int, e: nat)
    requires
        den > 0,
        num < SPAN * (den * pow2(e)),
        e == 0 || num >= HALF_SPAN * (den * pow2(e)),
    ensures
        rounded(num, den) == nearest_even(num, den * pow2(e)) * pow2(e),
    decreases e,
{
    if e == 0 {
        lemma2_to64();
        assert(den * pow2(0) == den) by (nonlinear_arith)
            requires
                pow2(0) == 1,
        ;
        assert(nearest_even(num, den) * pow2(0) == nearest_even(num, den)) by (nonlinear_arith)
            requires
                pow2(0) == 1,
        ;
    } else {
        let f = (e - 1) as nat;
        lemma_pow2_unfold(e);
        lemma_pow2_pos(f);
        assert(den * pow2(e) == (2 * den) * pow2(f)) by (nonlinear_arith)
            requires
                pow2(e) == 2 * pow2(f),
        ;
        assert(num >= SPAN * den) by (nonlinear_arith)
            requires
                num >= HALF_SPAN * ((2 * den) * pow2(f)),
                pow2(f) >= 1,
                den > 0,
        ;
        assert(f == 0 || num >= HALF_SPAN * ((2 * den) * pow2(f)));
        lemma_rounded_at(num, 2 * den, f);
        let ne = nearest_even(num, den * pow2(e));
        assert(2 * (ne * pow2(f)) == ne * pow2(e)) by (nonlinear_arith)
            requires
                pow2(e) == 2 * pow2(f),
        ;
    }
}

/// The nearest whole number to `num / (c * p)`, from the quotient and the remainder by `p`
/// of a whole number `n` with `n <= num / c < n + 1`.
pub proof fn lemma_nearest_from(num: int, c: int, half: int, n: int, sticky: bool)
    requires
        c > 0,
        half > 0,
        n >= 0,
        sticky ==> n * c < num < (n + 1) * c,
        !sticky ==> num == n * c,
    ensures
        nearest_even(num, c * (2 * half)) == {
            let q = n / (2 * half);
            let r = n % (2 * half);
            if r < half || (r == half && !sticky && q % 2 == 0) {
                q
            } else {
                q + 1
            }
        },
{
    let p = 2 * half;
    let q = n / p;
    let r = n % p;
    let t = num - n * c;
    lemma_fundamental_div_mod(n, p);
    assert((n + 1) * c == n * c + c) by (nonlinear_arith);
    assert(0 <= t < c);
    assert(num == q * (c * p) + (r * c + t)) by (nonlinear_arith)
        requires
            n == p * q + r,
            num == n * c + t,
    ;
    assert(0 <= r * c + t < c * p && c * p > 0) by (nonlinear_arith)
        requires
            0 <= r < p,
            0 <= t < c,
    ;
    lemma_nearest_parts(num, c * p, q, r * c + t);
    if r < half {
        assert(2 * (r * c + t) < c * p) by (nonlinear_arith)
            requires
                r + 1 <= half,
                0 <= t < c,
                p == 2 * half,
        ;
    } else if r == half {
        assert(2 * (r * c + t) == c * p + 2 * t) by (nonlinear_arith)
            requires
                r == half,
                p == 2 * half,
        ;
    } else {
        assert(2 * (r * c + t) > c * p) by (nonlinear_arith)
            requires
                r >= half + 1,
                0 <= t < c,
                p == 2 * half,
        ;
    }
}

/// The power of two that leaves 53 bits of `num / den`.
pub open spec fn exponent(num: int, den: int) -> nat
    decreases (if num >= SPAN * den { num - SPAN * den + 1 } else { 0 }),
{
    if den <= 0 || num < SPAN * den {
        0
    } else {
        1 + exponent(num, 2 * den)
    }
}

pub proof fn lemma_exponent(num: int, den: int)
    requires
        den > 0,
    ensures
        num < SPAN * (den * pow2(exponent(num, den))),
        exponent(num, den) == 0 || num >= HALF_SPAN * (den * pow2(exponent(num, den))),
        rounded(num, den) == nearest_even(num, den * pow2(exponent(num, den))) * pow2(
            exponent(num, den),
        ),
    decreases (if num >= SPAN * den { num - SPAN * den + 1 } else { 0 }),
{
    let e = exponent(num, den);
    lemma2_to64();
    if num < SPAN * den {
        assert(den * pow2(0) == den) by (nonlinear_arith)
            requires
                pow2(0) == 1,
        ;
    } else {
        lemma_exponent(num, 2 * den);
        let f = exponent(num, 2 * den);
        lemma_pow2_unfold(e);
        lemma_pow2_pos(f);
        assert(den * pow2(e) == (2 * den) * pow2(f)) by (nonlinear_arith)
            requires
                pow2(e) == 2 * pow2(f),
        ;
        if f == 0 {
            assert((2 * den) * pow2(0) == 2 * den) by (nonlinear_arith)
                requires
                    pow2(0) == 1,
            ;
        }
    }
    lemma_rounded_at(num, den, e);
}

/// A quotient that lies on one side of a whole number stays there when it is rounded to a
/// whole number.
pub proof fn lemma_nearest_bounds(num: int, den: int, k: int)
    requires
        den > 0,
    ensures
        num <= k * den ==> nearest_even(num, den) <= k,
        num >= k * den ==> nearest_even(num, den) >= k,
{
    let q = num / den;
    let r = num % den;
    lemma_fundamental_div_mod(num, den);
    if num <= k * den {
        assert(q < k || (q == k && r == 0)) by (nonlinear_arith)
            requires
                num == den * q + r,
                0 <= r < den,
                num <= k * den,
        ;
    }
    if num >= k * den {
        assert(q >= k) by (nonlinear_arith)
            requires
                num == den * q + r,
                0 <= r < den,
                num >= k * den,
        ;
    }
}

proof fn lemma_nearest_monotone(n1: int, d1: int, n2: int, d2: int)
    requires
        d1 > 0,
        d2 > 0,
        n1 * d2 <= n2 * d1,
    ensures
        nearest_even(n1, d1) <= nearest_even(n2, d2),
{
    let q1 = n1 / d1;
    let r1 = n1 % d1;
    let q2 = n2 / d2;
    let r2 = n2 % d2;
    lemma_fundamental_div_mod(n1, d1);
    lemma_fundamental_div_mod(n2, d2);
    assert(q1 * (d1 * d2) + r1 * d2 <= q2 * (d1 * d2) + r2 * d1) by (nonlinear_arith)
        requires
            n1 == d1 * q1 + r1,
            n2 == d2 * q2 + r2,
            n1 * d2 <= n2 * d1,
    ;
    assert(0 <= r1 * d2 && r2 * d1 < d1 * d2) by (nonlinear_arith)
        requires
            0 <= r1,
            d1 > 0,
            d2 > 0,
            r2 < d2,
    ;
    assert(q1 <= q2) by (nonlinear_arith)
        requires
            q1 * (d1 * d2) + r1 * d2 <= q2 * (d1 * d2) + r2 * d1,
            0 <= r1 * d2,
            r2 * d1 < d1 * d2,
            d1 > 0,
            d2 > 0,
    ;
    if q1 == q2 && nearest_even(n2, d2) == q2 {
        assert((2 * r1) * d2 <= (2 * r2) * d1) by (nonlinear_arith)
            requires
                r1 * d2 <= r2 * d1,
        ;
        assert(2 * r1 <= d1) by (nonlinear_arith)
            requires
                (2 * r1) * d2 <= (2 * r2) * d1,
                2 * r2 <= d2,
                d1 > 0,
                d2 > 0,
        ;
        if 2 * r1 == d1 {
            assert(2 * r2 >= d2) by (nonlinear_arith)
                requires
                    (2 * r1) * d2 <= (2 * r2) * d1,
                    2 * r1 == d1,
                    d1 > 0,
            ;
        }
    }
}

/// Rounding keeps the order of quotients.
pub proof fn lemma_rounded_monotone(n1: int, d1: int, n2: int, d2: int)
    requires
        n1 >= 0,
        d1 > 0,
        d2 > 0,
        n1 * d2 <= n2 * d1,
    ensures
        rounded(n1, d1) <= rounded(n2, d2),
{
    let e1 = exponent(n1, d1);
    let e2 = exponent(n2, d2);
    let p1 = pow2(e1) as int;
    let p2 = pow2(e2) as int;
    lemma_pow2_pos(e1);
    lemma_pow2_pos(e2);
    lemma_exponent(n1, d1);
    lemma_exponent(n2, d2);
    assert(d1 * p1 > 0 && d2 * p2 > 0) by (nonlinear_arith)
        requires
            d1 > 0,
            d2 > 0,
            p1 > 0,
            p2 > 0,
    ;
    let a1 = nearest_even(n1, d1 * p1);
    let a2 = nearest_even(n2, d2 * p2);
    if e1 == e2 {
        assert(n1 * (d2 * p2) <= n2 * (d1 * p1)) by (nonlinear_arith)
            requires
                n1 * d2 <= n2 * d1,
                p1 == p2,
                p1 > 0,
        ;
        lemma_nearest_monotone(n1, d1 * p1, n2, d2 * p2);
        assert(a1 * p1 <= a2 * p2) by (nonlinear_arith)
            requires
                a1 <= a2,
                p1 == p2,
                p1 > 0,
        ;
    } else if e1 < e2 {
        lemma_nearest_bounds(n1, d1 * p1, SPAN as int);
        lemma_nearest_bounds(n2, d2 * p2, HALF_SPAN as int);
        lemma_pow2_unfold(e1 + 1);
        if e1 + 1 < e2 {
            lemma_pow2_strictly_increases(e1 + 1, e2);
        }
        assert(2 * p1 <= p2);
        assert(a1 * p1 <= SPAN * p1) by (nonlinear_arith)
            requires
                a1 <= SPAN,
                p1 > 0,
        ;
        assert(HALF_SPAN * p2 <= a2 * p2) by (nonlinear_arith)
            requires
                HALF_SPAN <= a2,
                p2 > 0,
        ;
    } else {
        lemma_pow2_unfold(e2 + 1);
        if e2 + 1 < e1 {
            lemma_pow2_strictly_increases(e2 + 1, e1);
        }
        assert(2 * p2 <= p1);
        assert(n2 * d1 < n1 * d2) by (nonlinear_arith)
            requires
                n2 < SPAN * (d2 * p2),
                n1 >= HALF_SPAN * (d1 * p1),
                2 * p2 <= p1,
                d1 > 0,
                d2 > 0,
                p2 > 0,
        {
            assert(n2 * d1 < (SPAN * (d2 * p2)) * d1);
            assert((SPAN * (d2 * p2)) * d1 == (HALF_SPAN * (d1 * d2)) * (2 * p2));
            assert((HALF_SPAN * (d1 * d2)) * (2 * p2) <= (HALF_SPAN * (d1 * d2)) * p1);
            assert((HALF_SPAN * (d1 * d2)) * p1 == (HALF_SPAN * (d1 * p1)) * d2);
            assert((HALF_SPAN * (d1 * p1)) * d2 <= n1 * d2);
        }
    }
}

/// A number that has at most 53 significant bits is its own rounding.
pub proof fn lemma_rounded_exact(m: int, k: nat, den: int)
    requires
        0 <= m < SPAN,
        den > 0,
    ensures
        rounded((m * pow2(k)) * den, den) == m * pow2(k),
    decreases k,
{
    let x = m * pow2(k);
    lemma_pow2_pos(k);
    assert((x * den >= SPAN * den) == (x >= SPAN)) by (nonlinear_arith)
        requires
            den > 0,
    ;
    if x < SPAN {
        lemma_nearest_parts(x * den, den, x, 0);
    } else {
        if k == 0 {
            lemma2_to64();
            assert(x == m) by (nonlinear_arith)
                requires
                    x == m * pow2(k),
                    pow2(k) == 1,
            ;
        }
        let f = (k - 1) as nat;
        lemma_pow2_unfold(k);
        assert(x == 2 * (m * pow2(f))) by (nonlinear_arith)
            requires
                x == m * pow2(k),
                pow2(k) == 2 * pow2(f),
        ;
        assert(x * den == (m * pow2(f)) * (2 * den)) by (nonlinear_arith)
            requires
                x == 2 * (m * pow2(f)),
        ;
        lemma_rounded_exact(m, f, 2 * den);
    }
}

/// What is rounded has at most 53 significant bits.
pub proof fn lemma_rounded_fits(num: int, den: int)
    requires
        num >= 0,
        den > 0,
    ensures
        fits(rounded(num, den)),
{
    let e = exponent(num, den);
    lemma_exponent(num, den);
    lemma_pow2_pos(e);
    assert(den * pow2(e) > 0) by (nonlinear_arith)
        requires
            den > 0,
            pow2(e) > 0,
    ;
    lemma_nearest_bounds(num, den * pow2(e), SPAN as int);
    lemma_nearest_bounds(num, den * pow2(e), 0);
    let q = nearest_even(num, den * pow2(e));
    if q < SPAN {
        assert(fits(q * pow2(e)));
    } else {
        lemma_pow2_unfold(e + 1);
        assert(q * pow2(e) == HALF_SPAN * pow2(e + 1)) by (nonlinear_arith)
            requires
                q == SPAN,
                pow2(e + 1) == 2 * pow2(e),
        ;
        assert(fits(HALF_SPAN as int * pow2(e + 1)));
    }
}

/// Of a magnitude `num / den` between `n` and `n + 1` times two to the power `u - v`, where
/// `n` has `bl` binary digits, two to the power `e` leaves 53 bits.
pub proof fn lemma_bracket(n: int, bl: nat, e: nat, num: int, den: int, u: nat, v: nat)
    requires
        bl >= 1,
        pow2((bl - 1) as nat) <= n < pow2(bl),
        num >= 0,
        den > 0,
        n * (den * pow2(u)) <= num * pow2(v) < (n + 1) * (den * pow2(u)),
        e == 0 || e == u - v + bl - 53,
        e >= u - v + bl - 53,
    ensures
        num < SPAN * (den * pow2(e)),
        e == 0 || num >= HALF_SPAN * (den * pow2(e)),
        0 <= nearest_even(num, den * pow2(e)) <= SPAN,
        e == 0 || nearest_even(num, den * pow2(e)) >= HALF_SPAN,
{
    let pu = pow2(u) as int;
    let pv = pow2(v) as int;
    let pe = pow2(e) as int;
    let c = den * pu;
    lemma_pow2_pos(u);
    lemma_pow2_pos(v);
    lemma_pow2_pos(e);
    lemma_spans();
    assert(c > 0) by (nonlinear_arith)
        requires
            den > 0,
            pu > 0,
            c == den * pu,
    ;
    assert((n + 1) * c <= pow2(bl) * c) by (nonlinear_arith)
        requires
            n + 1 <= pow2(bl),
            c > 0,
    ;
    lemma_pow2_adds(bl, u);
    assert(pow2(bl) * c == den * pow2(bl + u)) by (nonlinear_arith)
        requires
            c == den * pu,
            pow2(bl + u) == pow2(bl) * pu,
    ;
    lemma_pow2_adds(53, e);
    lemma_pow2_adds(53 + e, v);
    if bl + u < 53 + e + v {
        lemma_pow2_strictly_increases(bl + u, 53 + e + v);
    }
    assert(den * pow2(bl + u) <= (SPAN * (den * pe)) * pv) by (nonlinear_arith)
        requires
            pow2(bl + u) <= pow2(53 + e + v),
            pow2(53 + e + v) == (SPAN * pe) * pv,
            den > 0,
    ;
    lemma_mul_strict_inequality_converse(num, SPAN * (den * pe), pv);
    assert(den * pe > 0) by (nonlinear_arith)
        requires
            den > 0,
            pe > 0,
    ;
    lemma_nearest_bounds(num, den * pe, SPAN as int);
    lemma_nearest_bounds(num, den * pe, 0);
    if e > 0 {
        let b1 = (bl - 1) as nat;
        assert(pow2(b1) * c <= n * c) by (nonlinear_arith)
            requires
                pow2(b1) <= n,
                c > 0,
        ;
        lemma_pow2_adds(b1, u);
        lemma_pow2_adds(52, e);
        lemma_pow2_adds(52 + e, v);
        assert(b1 + u == 52 + e + v);
        assert(pow2(b1) * c == (HALF_SPAN * (den * pe)) * pv) by (nonlinear_arith)
            requires
                c == den * pu,
                pow2(b1) * pu == (HALF_SPAN * pe) * pv,
        ;
        lemma_mul_inequality_converse(HALF_SPAN * (den * pe), num, pv);
        lemma_nearest_bounds(num, den * pe, HALF_SPAN as int);
    }
}

/// Of an exact multiple the rounding is the multiple itself.
pub proof fn lemma_multiple(n: int, bl: nat, e: nat, num: int, den: int, u: nat, v: nat, d: nat)
    requires
        0 <= n < pow2(bl),
        den > 0,
        num * pow2(v) == n * (den * pow2(u)),
        u == d + e + v,
        bl + d <= 53,
    ensures
        n * pow2(d) < SPAN,
        nearest_even(num, den * pow2(e)) == n * pow2(d),
{
    let pd = pow2(d) as int;
    let pv = pow2(v) as int;
    let pe = pow2(e) as int;
    let q = n * pd;
    lemma_pow2_pos(d);
    lemma_pow2_pos(v);
    lemma_pow2_pos(e);
    lemma_spans();
    lemma_pow2_adds(bl, d);
    if bl + d < 53 {
        lemma_pow2_strictly_increases(bl + d, 53);
    }
    assert(q < SPAN) by (nonlinear_arith)
        requires
            q == n * pd,
            n + 1 <= pow2(bl),
            pow2(bl) * pd <= SPAN,
            pd > 0,
    ;
    lemma_pow2_adds(d, e);
    lemma_pow2_adds(d + e, v);
    assert(num * pv == (q * (den * pe)) * pv) by (nonlinear_arith)
        requires
            num * pv == n * (den * pow2(u)),
            pow2(u) == (pd * pe) * pv,
            q == n * pd,
    ;
    assert(num == q * (den * pe)) by (nonlinear_arith)
        requires
            num * pv == (q * (den * pe)) * pv,
            pv > 0,
    ;
    assert(den * pe > 0) by (nonlinear_arith)
        requires
            den > 0,
            pe > 0,
    ;
    lemma_nearest_parts(num, den * pe, q, 0);
}

/// A magnitude below half a unit rounds to nothing.
pub proof fn lemma_tiny(n: int, num: int, den: int, u: nat, v: nat)
    requires
        0 <= n < pow2(127),
        num >= 0,
        den > 0,
        num * pow2(v) < (n + 1) * (den * pow2(u)),
        u + 128 <= v,
    ensures
        nearest_even(num, den * pow2(0)) == 0,
{
    let pu = pow2(u) as int;
    let pv = pow2(v) as int;
    let c = den * pu;
    lemma2_to64();
    lemma_pow2_pos(u);
    lemma_pow2_pos(127);
    lemma_pow2_adds(128, u);
    lemma_pow2_unfold(128);
    if 128 + u < v {
        lemma_pow2_strictly_increases(128 + u, v);
    }
    assert(c > 0) by (nonlinear_arith)
        requires
            den > 0,
            pu > 0,
            c == den * pu,
    ;
    let w = pow2(127) as int;
    assert((n + 1) * c <= w * c) by (nonlinear_arith)
        requires
            n + 1 <= w,
            c > 0,
    ;
    assert(num * ((2 * w) * pu) <= num * pv) by (nonlinear_arith)
        requires
            (2 * w) * pu <= pv,
            num >= 0,
    ;
    assert((2 * num) * (w * pu) < den * (w * pu)) by (nonlinear_arith)
        requires
            num * ((2 * w) * pu) < w * c,
            c == den * pu,
    ;
    assert(w * pu > 0) by (nonlinear_arith)
        requires
            w > 0,
            pu > 0,
    ;
    lemma_mul_strict_inequality_converse(2 * num, den, w * pu);
    assert(den * pow2(0) == den) by (nonlinear_arith)
        requires
            pow2(0) == 1,
    ;
    lemma_nearest_parts(num, den, 0, num);
}

/// The rounding from the quotient and the remainder of `n` by two to the power `sh`.
pub proof fn lemma_shifted(
    n: int,
    bl: nat,
    sh: nat,
    half: int,
    sticky: bool,
    e: nat,
    num: int,
    den: int,
    u: nat,
    v: nat,
)
    requires
        0 <= n < pow2(bl),
        bl <= 53 + sh,
        den > 0,
        half > 0,
        pow2(sh) == 2 * half,
        e + v == u + sh,
        sticky ==> n * (den * pow2(u)) < num * pow2(v) < (n + 1) * (den * pow2(u)),
        !sticky ==> num * pow2(v) == n * (den * pow2(u)),
    ensures
        0 <= n / (2 * half) < SPAN,
        nearest_even(num, den * pow2(e)) == {
            let q = n / (2 * half);
            let r = n % (2 * half);
            if r < half || (r == half && !sticky && q % 2 == 0) {
                q
            } else {
                q + 1
            }
        },
{
    let pu = pow2(u) as int;
    let pv = pow2(v) as int;
    let pe = pow2(e) as int;
    let p = 2 * half;
    let c = den * pu;
    lemma_pow2_pos(u);
    lemma_pow2_pos(v);
    lemma_pow2_pos(e);
    lemma_spans();
    assert(c > 0) by (nonlinear_arith)
        requires
            den > 0,
            pu > 0,
            c == den * pu,
    ;
    lemma_nearest_from(num * pv, c, half, n, sticky);
    lemma_pow2_adds(e, v);
    lemma_pow2_adds(u, sh);
    assert(c * p == (den * pe) * pv) by (nonlinear_arith)
        requires
            c == den * pu,
            pe * pv == pu * p,
    ;
    assert(den * pe > 0) by (nonlinear_arith)
        requires
            den > 0,
            pe > 0,
    ;
    lemma_nearest_scaled(num, den * pe, pv);
    lemma_pow2_adds(53, sh);
    if bl < 53 + sh {
        lemma_pow2_strictly_increases(bl, 53 + sh);
    }
    let q = n / p;
    lemma_fundamental_div_mod(n, p);
    assert(0 <= q < SPAN) by (nonlinear_arith)
        requires
            n == p * q + n % p,
            0 <= n % p < p,
            0 <= n < SPAN * p,
    ;
}

/// Which significands with which exponents lie past the finite magnitudes.
pub proof fn lemma_overflow(q: int, shift: nat)
    requires
        0 <= q < SPAN,
        shift == 0 || q >= HALF_SPAN,
    ensures
        (q * pow2(shift) >= pow2(2098)) == (shift > 2045),
        q * pow2(shift) >= 0,
{
    lemma_spans();
    lemma_pow2_pos(shift);
    let p = pow2(shift) as int;
    assert(q * p >= 0) by (nonlinear_arith)
        requires
            q >= 0,
            p > 0,
    ;
    if shift <= 2045 {
        lemma_pow2_adds(53, shift);
        if shift < 2045 {
            lemma_pow2_strictly_increases(53 + shift, 2098);
        }
        assert(q * p < SPAN * p) by (nonlinear_arith)
            requires
                q < SPAN,
                p > 0,
        ;
    } else {
        lemma_pow2_adds(52, shift);
        if shift > 2046 {
            lemma_pow2_strictly_increases(2098, 52 + shift);
        }
        assert(q * p >= HALF_SPAN * p) by (nonlinear_arith)
            requires
                q >= HALF_SPAN,
                p > 0,
        ;
    }
}

} // verus!
