//! Binary64 numbers and their arithmetic, done on whole numbers.
use crate::datum::{lemma_nearest_whole, magnitude, settled, top, unit, Datum};
use crate::rounding::{
    lemma_bracket, lemma_multiple, lemma_overflow, lemma_rounded_at, lemma_shifted, lemma_spans,
    lemma_tiny, nearest_even, rounded, HALF_SPAN, SPAN,
};
use vstd::arithmetic::div_mod::lemma_fundamental_div_mod;
use vstd::arithmetic::power2::{
    lemma2_to64, lemma2_to64_rest, lemma_pow2_adds, lemma_pow2_pos, lemma_pow2_strictly_increases,
    lemma_pow2_unfold, pow2,
};
use vstd::prelude::*;

verus! {

/// The bits without the sign of an infinity; above it lie those of what is not a number.
const INFINITE_LOW: u64 = 0x7ff0_0000_0000_0000;

/// The weight of the sign bit.
const SIGN: u64 = 0x8000_0000_0000_0000;

/// A binary64 number, held as the 64 bits of its interchange format.
#[derive(Clone, Copy, Debug)]
pub struct Binary64 {
    pub bits: u64,
}

/// The magnitude, in units, that bits without a sign stand for: a significand below and its
/// exponent above.
pub open spec fn low_magnitude(low: int) -> int {
    let e = low / HALF_SPAN as int;
    let f = low % HALF_SPAN as int;
    if e <= 0 {
        f
    } else {
        (HALF_SPAN + f) * pow2((e - 1) as nat)
    }
}

impl View for Binary64 {
    type V = Datum;

    open spec fn view(&self) -> Datum {
        let neg = self.bits >= 0x8000_0000_0000_0000;
        let low = self.bits as int % 0x8000_0000_0000_0000;
        if low > 0x7ff0_0000_0000_0000 {
            Datum::Nan
        } else if low == 0x7ff0_0000_0000_0000 {
            Datum::Infinite { neg }
        } else {
            Datum::Finite { neg, mag: low_magnitude(low) as nat }
        }
    }
}

/// A finite number taken apart: `mant` times two to the power `shift`, in units.
struct Parts {
    neg: bool,
    mant: u64,
    shift: u32,
}

impl Parts {
    spec fn valid(self) -> bool {
        &&& self.mant < SPAN
        &&& self.mant >= HALF_SPAN || self.shift == 0
        &&& self.shift <= 2045
    }

    spec fn mag(self) -> nat {
        self.mant as nat * pow2(self.shift as nat)
    }
}

/// Two to the power `k`.
fn power(k: u32) -> (r: u128)
    requires
        k <= 127,
    ensures
        r == pow2(k as nat),
        r >= 1,
{
    let mut r: u128 = 1;
    let mut i: u32 = 0;
    proof {
        lemma2_to64();
    }
    while i < k
        invariant
            i <= k <= 127,
            r == pow2(i as nat),
            r >= 1,
        decreases k - i,
    {
        proof {
            lemma_pow2_unfold((i + 1) as nat);
            lemma2_to64_rest();
            lemma_pow2_adds(64, 63);
            if i < 126 {
                lemma_pow2_strictly_increases((i + 1) as nat, 127);
            }
        }
        r = r * 2;
        i += 1;
    }
    r
}

/// The number of binary digits of `n`.
fn bit_length(n: u128) -> (l: u32)
    requires
        0 < n < pow2(127),
    ensures
        1 <= l <= 127,
        pow2((l - 1) as nat) <= n < pow2(l as nat),
{
    let mut m: u128 = n;
    let mut l: u32 = 1;
    proof {
        lemma2_to64();
        assert(m * pow2(0) == n);
        assert((m + 1) * pow2(0) == n + 1);
    }
    while m > 1
        invariant
            1 <= l <= 127,
            1 <= m,
            0 < n < pow2(127),
            m * pow2((l - 1) as nat) <= n < (m + 1) * pow2((l - 1) as nat),
        decreases m,
    {
        let h: u128 = m / 2;
        proof {
            let p = pow2((l - 1) as nat) as int;
            lemma_pow2_unfold(l as nat);
            lemma_pow2_pos((l - 1) as nat);
            assert(h * pow2(l as nat) <= m * p) by (nonlinear_arith)
                requires
                    pow2(l as nat) == 2 * p,
                    2 * h <= m,
                    p > 0,
            ;
            assert((m + 1) * p <= (h + 1) * pow2(l as nat)) by (nonlinear_arith)
                requires
                    pow2(l as nat) == 2 * p,
                    m + 1 <= 2 * (h + 1),
                    p > 0,
            ;
            assert(pow2(l as nat) <= h * pow2(l as nat)) by (nonlinear_arith)
                requires
                    h >= 1,
            ;
            if l >= 127 {
                assert(false);
            }
        }
        m = h;
        l += 1;
    }
    proof {
        lemma_pow2_unfold(l as nat);
        assert(1 * pow2((l - 1) as nat) == pow2((l - 1) as nat));
        assert(2 * pow2((l - 1) as nat) == pow2(l as nat));
    }
    l
}

/// Puts a finite number together.
fn encode(neg: bool, mant: u64, shift: u32) -> (r: Binary64)
    requires
        mant < SPAN,
        mant >= HALF_SPAN || shift == 0,
        shift <= 2045,
    ensures
        r@ == (Datum::Finite { neg, mag: mant as nat * pow2(shift as nat) }),
{
    proof {
        lemma2_to64();
    }
    let low: u64 = if mant < HALF_SPAN {
        assert(mant as int / HALF_SPAN as int == 0);
        assert(low_magnitude(mant as int) == mant);
        assert(mant as nat * pow2(shift as nat) == mant);
        mant
    } else {
        let low: u64 = (shift as u64 + 1) * HALF_SPAN + (mant - HALF_SPAN);
        assert(low as int / HALF_SPAN as int == shift + 1);
        assert(low as int % HALF_SPAN as int == mant - HALF_SPAN);
        assert(low_magnitude(low as int) == mant as int * pow2(shift as nat));
        low
    };
    assert(low < INFINITE_LOW);
    let bits: u64 = if neg {
        low + SIGN
    } else {
        low
    };
    assert(bits as int % 0x8000_0000_0000_0000 == low);
    Binary64 { bits }
}

proof fn lemma_weak_bracket(n: int, sticky: bool, x: int, c: int)
    requires
        c > 0,
        sticky ==> n * c < x < (n + 1) * c,
        !sticky ==> x == n * c,
    ensures
        n * c <= x < (n + 1) * c,
{
    assert((n + 1) * c == n * c + c) by (nonlinear_arith);
}

/// The datum for an exact magnitude `num / den` of which the whole number
/// `n == floor(num / den / 2^k)` is known, and by `sticky` whether that is all of it.
#[verifier::rlimit(60)]
fn pack(
    neg: bool,
    n: u128,
    k: i32,
    sticky: bool,
    Ghost(num): Ghost<int>,
    Ghost(den): Ghost<int>,
    Ghost(u): Ghost<nat>,
    Ghost(v): Ghost<nat>,
) -> (r: Binary64)
    requires
        0 < n < pow2(127),
        -5000 <= k <= 5000,
        k == u - v,
        num >= 0,
        den > 0,
        sticky ==> n >= pow2(60),
        sticky ==> n * (den * pow2(u)) < num * pow2(v) < (n + 1) * (den * pow2(u)),
        !sticky ==> num * pow2(v) == n * (den * pow2(u)),
    ensures
        r@ == settled(neg, num, den),
{
    let bl: u32 = bit_length(n);
    let raw: i32 = k + bl as i32 - 53;
    let e: i32 = if raw > 0 {
        raw
    } else {
        0
    };
    let sh: i32 = e - k;
    proof {
        lemma_pow2_pos(u);
        lemma_pow2_pos(v);
        lemma_spans();
        assert(den * pow2(u) > 0) by (nonlinear_arith)
            requires
                den > 0,
                pow2(u) > 0,
        ;
        lemma_weak_bracket(n as int, sticky, num * pow2(v), den * pow2(u));
        lemma_bracket(n as int, bl as nat, e as nat, num, den, u, v);
        lemma_rounded_at(num, den, e as nat);
    }
    let ghost quantum = den * pow2(e as nat);
    let mut q: u64;
    if sh <= 0 {
        proof {
            if sticky {
                if bl <= 60 {
                    if bl < 60 {
                        lemma_pow2_strictly_increases(bl as nat, 60);
                    }
                }
                assert(false);
            }
            lemma_multiple(n as int, bl as nat, e as nat, num, den, u, v, (-sh) as nat);
        }
        let p: u128 = power((-sh) as u32);
        proof {
            assert(n * p < SPAN);
        }
        q = (n * p) as u64;
    } else if sh > 127 {
        proof {
            lemma_tiny(n as int, num, den, u, v);
        }
        q = 0;
    } else {
        let half: u128 = power((sh - 1) as u32);
        proof {
            lemma_pow2_unfold(sh as nat);
            lemma2_to64_rest();
            lemma_pow2_adds(64, 63);
            if sh < 127 {
                lemma_pow2_strictly_increases(sh as nat, 127);
            }
            lemma_shifted(
                n as int,
                bl as nat,
                sh as nat,
                half as int,
                sticky,
                e as nat,
                num,
                den,
                u,
                v,
            );
        }
        let p: u128 = half * 2;
        let qq: u128 = n / p;
        let r: u128 = n % p;
        q = qq as u64;
        if !(r < half || (r == half && !sticky && q % 2 == 0)) {
            q = q + 1;
        }
    }
    assert(q == nearest_even(num, quantum));
    assert(q <= SPAN);
    let ghost q0 = q as int;
    let mut shift: i32 = e;
    if q == SPAN {
        q = HALF_SPAN;
        shift = e + 1;
        proof {
            lemma_pow2_unfold((e + 1) as nat);
            assert(HALF_SPAN * pow2((e + 1) as nat) == SPAN * pow2(e as nat)) by (nonlinear_arith)
                requires
                    pow2((e + 1) as nat) == 2 * pow2(e as nat),
            ;
        }
    }
    assert(rounded(num, den) == q * pow2(shift as nat));
    proof {
        lemma_pow2_pos(shift as nat);
        lemma_overflow(q as int, shift as nat);
    }
    if shift > 2045 {
        let bits: u64 = if neg {
            INFINITE_LOW + SIGN
        } else {
            INFINITE_LOW
        };
        assert(bits as int % 0x8000_0000_0000_0000 == INFINITE_LOW);
        Binary64 { bits }
    } else {
        assert(q * pow2(shift as nat) >= 0);
        encode(neg, q, shift as u32)
    }
}

/// What is not a number, and the two infinities.
fn nan() -> (r: Binary64)
    ensures
        r@ is Nan,
{
    Binary64 { bits: 0x7ff8_0000_0000_0000 }
}

fn infinite(neg: bool) -> (r: Binary64)
    ensures
        r@ == (Datum::Infinite { neg }),
{
    let bits: u64 = if neg {
        INFINITE_LOW + SIGN
    } else {
        INFINITE_LOW
    };
    assert(bits as int % 0x8000_0000_0000_0000 == INFINITE_LOW);
    Binary64 { bits }
}

fn zero(neg: bool) -> (r: Binary64)
    ensures
        r@ == (Datum::Finite { neg, mag: 0 }),
{
    proof {
        lemma2_to64();
        assert(0nat * pow2(0) == 0) by (nonlinear_arith);
    }
    encode(neg, 0, 0)
}

impl Binary64 {
    /// The number of these bits.
    pub fn from_bits(bits: u64) -> (r: Binary64)
        ensures
            r.bits == bits,
    {
        Binary64 { bits }
    }

    /// The bits of the number.
    pub fn to_bits(self) -> (r: u64)
        ensures
            r == self.bits,
    {
        self.bits
    }

    /// The bits without the sign.
    fn low(self) -> (r: u64)
        ensures
            r == self.bits as int % 0x8000_0000_0000_0000,
    {
        self.bits % SIGN
    }

    fn negative(self) -> (r: bool)
        ensures
            r == (self.bits >= 0x8000_0000_0000_0000),
    {
        self.bits >= SIGN
    }

    pub fn is_nan(self) -> (r: bool)
        ensures
            r == (self@ is Nan),
    {
        self.low() > INFINITE_LOW
    }

    pub fn is_finite(self) -> (r: bool)
        ensures
            r == self@.is_finite(),
    {
        self.low() < INFINITE_LOW
    }

    /// Takes a finite number apart.
    fn parts(self) -> (r: Parts)
        requires
            self@ is Finite,
        ensures
            r.valid(),
            self@ == (Datum::Finite { neg: r.neg, mag: r.mag() }),
    {
        let low: u64 = self.low();
        let e: u64 = low / HALF_SPAN;
        let f: u64 = low % HALF_SPAN;
        proof {
            lemma2_to64();
            lemma_pow2_pos((e - 1) as nat);
        }
        if e == 0 {
            assert(f as nat * pow2(0) == f) by (nonlinear_arith)
                requires
                    pow2(0) == 1,
            ;
            Parts { neg: self.negative(), mant: f, shift: 0 }
        } else {
            assert(low_magnitude(low as int) == (HALF_SPAN + f) * pow2((e - 1) as nat));
            assert((HALF_SPAN + f) * pow2((e - 1) as nat) >= 0) by (nonlinear_arith)
                requires
                    pow2((e - 1) as nat) > 0,
                    f >= 0,
            ;
            Parts { neg: self.negative(), mant: HALF_SPAN + f, shift: (e - 1) as u32 }
        }
    }

    /// The whole number `n`, rounded.
    pub fn from_u64(n: u64) -> (r: Binary64)
        ensures
            r@ == Datum::nearest(n as int),
    {
        if n == 0 {
            proof {
                crate::rounding::lemma_rounded_exact(0, 0, 1);
                assert(0 * unit() == 0) by (nonlinear_arith);
                lemma_pow2_pos(2098);
            }
            zero(false)
        } else {
            proof {
                lemma2_to64_rest();
                lemma2_to64();
                lemma_pow2_strictly_increases(64, 127);
                assert(n * (1 * pow2(1074)) == (n * unit()) * pow2(0)) by (nonlinear_arith)
                    requires
                        pow2(0) == 1,
                        unit() == pow2(1074),
                ;
                lemma_pow2_pos(1074);
                assert(n * unit() >= 0) by (nonlinear_arith)
                    requires
                        unit() > 0,
                        n > 0,
                ;
            }
            pack(
                false,
                n as u128,
                1074,
                false,
                Ghost(n * unit()),
                Ghost(1),
                Ghost(1074),
                Ghost(0),
            )
        }
    }

    /// The whole number `n`.
    pub fn from_u32(n: u32) -> (r: Binary64)
        ensures
            r@ == Datum::whole(n as int),
    {
        proof {
            lemma_nearest_whole(n as int);
        }
        Binary64::from_u64(n as u64)
    }

    /// The number with the other sign.
    pub fn negated(self) -> (r: Binary64)
        ensures
            r@ == self@.negated(),
    {
        let bits: u64 = if self.bits >= SIGN {
            self.bits - SIGN
        } else {
            self.bits + SIGN
        };
        assert(bits as int % 0x8000_0000_0000_0000 == self.bits as int % 0x8000_0000_0000_0000);
        Binary64 { bits }
    }

    /// The whole number `n`, rounded.
    pub fn from_i64(n: i64) -> (r: Binary64)
        ensures
            r@ == Datum::nearest(n as int),
    {
        if n >= 0 {
            Binary64::from_u64(n as u64)
        } else {
            let m: u64 = if n == i64::MIN {
                SIGN
            } else {
                (-n) as u64
            };
            Binary64::from_u64(m).negated()
        }
    }
}

/// The order of bits without a sign is that of the magnitudes they stand for.
proof fn lemma_low_order(a: int, b: int)
    requires
        0 <= a < b <= 0x7ff0_0000_0000_0000,
    ensures
        0 <= low_magnitude(a) < low_magnitude(b),
{
    let ea = a / HALF_SPAN as int;
    let eb = b / HALF_SPAN as int;
    let fa = a % HALF_SPAN as int;
    let fb = b % HALF_SPAN as int;
    lemma2_to64();
    lemma_pow2_pos((ea - 1) as nat);
    lemma_pow2_pos((eb - 1) as nat);
    assert(ea <= eb);
    if ea == eb {
        if ea > 0 {
            let p = pow2((ea - 1) as nat) as int;
            assert(0 <= (HALF_SPAN + fa) * p < (HALF_SPAN + fb) * p) by (nonlinear_arith)
                requires
                    0 <= fa < fb,
                    p > 0,
            ;
        }
    } else {
        let q = pow2((eb - 1) as nat) as int;
        assert(HALF_SPAN * q <= (HALF_SPAN + fb) * q) by (nonlinear_arith)
            requires
                0 <= fb,
                q > 0,
        ;
        if ea <= 0 {
            assert(HALF_SPAN <= HALF_SPAN * q) by (nonlinear_arith)
                requires
                    q >= 1,
            ;
        } else {
            let p = pow2((ea - 1) as nat) as int;
            lemma_pow2_unfold(ea as nat);
            if ea < eb - 1 {
                lemma_pow2_strictly_increases(ea as nat, (eb - 1) as nat);
            }
            assert(0 <= (HALF_SPAN + fa) * p < HALF_SPAN * q) by (nonlinear_arith)
                requires
                    0 <= fa < HALF_SPAN,
                    2 * p <= q,
                    p > 0,
            ;
        }
    }
}

/// The bits of an infinity stand for the first magnitude past the finite ones.
proof fn lemma_low_top()
    ensures
        low_magnitude(0x7ff0_0000_0000_0000) == top(),
{
    lemma_spans();
    lemma_pow2_adds(52, 2046);
    assert(0x7ff0_0000_0000_0000int / HALF_SPAN as int == 2047);
    assert(0x7ff0_0000_0000_0000int % HALF_SPAN as int == 0);
}

/// The bits below those of an infinity stand for finite magnitudes.
pub proof fn lemma_low_finite(low: int)
    requires
        0 <= low < 0x7ff0_0000_0000_0000,
    ensures
        0 <= low_magnitude(low) < top(),
{
    lemma_low_top();
    lemma_low_order(low, 0x7ff0_0000_0000_0000);
}

proof fn lemma_place(x: Binary64)
    requires
        !(x@ is Nan),
    ensures
        x@.place() == (if x.bits >= 0x8000_0000_0000_0000 {
            -low_magnitude(x.bits as int % 0x8000_0000_0000_0000)
        } else {
            low_magnitude(x.bits as int % 0x8000_0000_0000_0000)
        }),
        low_magnitude(x.bits as int % 0x8000_0000_0000_0000) >= 0,
        (low_magnitude(x.bits as int % 0x8000_0000_0000_0000) == 0) == (x.bits as int
            % 0x8000_0000_0000_0000 == 0),
{
    let low = x.bits as int % 0x8000_0000_0000_0000;
    lemma_low_top();
    if low > 0 {
        lemma_low_order(0, low);
    }
}

impl Binary64 {
    /// `self < other`.
    pub fn lt(self, other: Binary64) -> (r: bool)
        ensures
            r == self@.lt(other@),
    {
        if self.is_nan() || other.is_nan() {
            return false;
        }
        let a: u64 = self.low();
        let b: u64 = other.low();
        proof {
            lemma_place(self);
            lemma_place(other);
            if a < b {
                lemma_low_order(a as int, b as int);
            }
            if b < a {
                lemma_low_order(b as int, a as int);
            }
        }
        if self.negative() {
            if other.negative() {
                b < a
            } else {
                a != 0 || b != 0
            }
        } else {
            if other.negative() {
                false
            } else {
                a < b
            }
        }
    }

    /// `self <= other`.
    pub fn le(self, other: Binary64) -> (r: bool)
        ensures
            r == self@.le(other@),
    {
        if self.is_nan() || other.is_nan() {
            false
        } else {
            !other.lt(self)
        }
    }

    /// The larger of two; the other one where one is not a number.
    pub fn larger(self, other: Binary64) -> (r: Binary64)
        ensures
            r@ == self@.larger(other@),
    {
        if self.is_nan() {
            other
        } else if self.lt(other) {
            other
        } else {
            self
        }
    }

    /// The smaller of two; the other one where one is not a number.
    pub fn smaller(self, other: Binary64) -> (r: Binary64)
        ensures
            r@ == self@.smaller(other@),
    {
        if self.is_nan() {
            other
        } else if other.lt(self) {
            other
        } else {
            self
        }
    }

    /// Held between two bounds.
    pub fn held(self, low: Binary64, high: Binary64) -> (r: Binary64)
        requires
            low@.le(high@),
        ensures
            r@ == self@.held(low@, high@),
    {
        if self.lt(low) {
            low
        } else if high.lt(self) {
            high
        } else {
            self
        }
    }
}

/// `hi + lo` where the exponents lie near one another.
fn plus_near(hi: Parts, lo: Parts) -> (r: Binary64)
    requires
        hi.valid(),
        lo.valid(),
        lo.shift <= hi.shift <= lo.shift + 70,
    ensures
        ({
            let a = Datum::Finite { neg: hi.neg, mag: hi.mag() };
            let b = Datum::Finite { neg: lo.neg, mag: lo.mag() };
            r@ == a.plus(b)
        }),
{
    let d: u32 = hi.shift - lo.shift;
    let p: u128 = power(d);
    let ghost u = lo.shift as nat;
    let ghost pu = pow2(u) as int;
    proof {
        lemma_pow2_pos(u);
        lemma2_to64();
        lemma2_to64_rest();
        lemma_spans();
        lemma_pow2_adds(d as nat, u);
        if d < 70 {
            lemma_pow2_strictly_increases(d as nat, 70);
        }
        lemma_pow2_adds(53, 70);
        lemma_pow2_adds(64, 59);
        lemma_pow2_unfold(124);
        lemma_pow2_strictly_increases(124, 127);
        assert(hi.mant * p <= SPAN * pow2(70)) by (nonlinear_arith)
            requires
                hi.mant <= SPAN,
                0 <= p <= pow2(70),
        ;
        assert(SPAN <= SPAN * pow2(70)) by (nonlinear_arith)
            requires
                pow2(70) >= 1,
        ;
    }
    let h: u128 = hi.mant as u128 * p;
    let l: u128 = lo.mant as u128;
    let ghost a = Datum::Finite { neg: hi.neg, mag: hi.mag() };
    let ghost b = Datum::Finite { neg: lo.neg, mag: lo.mag() };
    let ghost sum = a.place() + b.place();
    assert(hi.mag() == h * pu) by (nonlinear_arith)
        requires
            hi.mag() == hi.mant as nat * pow2(hi.shift as nat),
            pow2(hi.shift as nat) == p * pu,
            h == hi.mant * p,
    ;
    assert(lo.mag() == l * pu);
    let neg: bool;
    let n: u128;
    if hi.neg == lo.neg {
        neg = hi.neg;
        n = h + l;
        assert(n * pu == h * pu + l * pu) by (nonlinear_arith)
            requires
                n == h + l,
        ;
    } else if h >= l {
        neg = hi.neg;
        n = h - l;
        assert(n * pu == h * pu - l * pu) by (nonlinear_arith)
            requires
                n == h - l,
        ;
    } else {
        neg = lo.neg;
        n = l - h;
        assert(n * pu == l * pu - h * pu) by (nonlinear_arith)
            requires
                n == l - h,
        ;
    }
    assert(magnitude(sum) == n * pu && (n * pu == 0) == (n == 0)) by {
        assert(n * pu >= 0 && (n * pu == 0) == (n == 0)) by (nonlinear_arith)
            requires
                pu > 0,
                n >= 0,
        ;
    }
    if n == 0 {
        zero(hi.neg && lo.neg)
    } else {
        proof {
            assert((sum < 0) == neg) by {
                assert(n * pu > 0) by (nonlinear_arith)
                    requires
                        pu > 0,
                        n > 0,
                ;
            }
            assert((n * pu) * pow2(0) == n * (1 * pow2(u))) by (nonlinear_arith)
                requires
                    pow2(0) == 1,
                    pu == pow2(u),
            ;
        }
        pack(neg, n, lo.shift as i32, false, Ghost(n * pu), Ghost(1), Ghost(u), Ghost(0))
    }
}

/// `hi + lo` where the exponent of `hi` is far the larger.
fn plus_far(hi: Parts, lo: Parts) -> (r: Binary64)
    requires
        hi.valid(),
        lo.valid(),
        hi.shift > lo.shift + 70,
    ensures
        ({
            let a = Datum::Finite { neg: hi.neg, mag: hi.mag() };
            let b = Datum::Finite { neg: lo.neg, mag: lo.mag() };
            r@ == a.plus(b)
        }),
{
    let p: u128 = power(70);
    let k: i32 = hi.shift as i32 - 70;
    let j: u32 = hi.shift - 70 - lo.shift;
    let ghost u = k as nat;
    let ghost pu = pow2(u) as int;
    let ghost pl = pow2(lo.shift as nat) as int;
    proof {
        lemma_pow2_pos(u);
        lemma_pow2_pos(lo.shift as nat);
        lemma_pow2_pos(j as nat);
        lemma2_to64();
        lemma2_to64_rest();
        lemma_spans();
        lemma_pow2_adds(70, u);
        lemma_pow2_adds(j as nat, lo.shift as nat);
        lemma_pow2_adds(53, 70);
        lemma_pow2_adds(52, 70);
        lemma_pow2_unfold(124);
        lemma_pow2_strictly_increases(124, 127);
        lemma_pow2_strictly_increases(61, 122);
        lemma_pow2_unfold(61);
        lemma_pow2_strictly_increases(53, 60);
        lemma_pow2_adds(64, 60);
        assert(HALF_SPAN * pow2(70) <= hi.mant * p < SPAN * pow2(70)) by (nonlinear_arith)
            requires
                HALF_SPAN <= hi.mant < SPAN,
                p == pow2(70),
                p > 0,
        ;
    }
    let h: u128 = hi.mant as u128 * p;
    let lq: u128;
    let lr: u128;
    if j > 60 {
        lq = 0;
        lr = lo.mant as u128;
        proof {
            lemma_pow2_strictly_increases(60, j as nat);
        }
    } else {
        let pj: u128 = power(j);
        lq = lo.mant as u128 / pj;
        lr = lo.mant as u128 % pj;
        proof {
            lemma_fundamental_div_mod(lo.mant as int, pj as int);
            assert(lo.mant == lq * pj + lr) by (nonlinear_arith)
                requires
                    lo.mant == pj * lq + lr,
            ;
        }
    }
    let ghost pj = pow2(j as nat) as int;
    let ghost a = Datum::Finite { neg: hi.neg, mag: hi.mag() };
    let ghost b = Datum::Finite { neg: lo.neg, mag: lo.mag() };
    let ghost sum = a.place() + b.place();
    let ghost rest = lr * pl;
    assert(lo.mant == lq * pj + lr && 0 <= lr < pj);
    assert(hi.mag() == h * pu) by (nonlinear_arith)
        requires
            hi.mag() == hi.mant as nat * pow2(hi.shift as nat),
            pow2(hi.shift as nat) == p * pu,
            h == hi.mant * p,
    ;
    assert(lo.mag() == lq * pu + rest) by (nonlinear_arith)
        requires
            lo.mag() == lo.mant as nat * pl,
            pu == pj * pl,
            lo.mant == lq * pj + lr,
            rest == lr * pl,
    ;
    assert(0 <= rest < pu && (rest == 0) == (lr == 0)) by (nonlinear_arith)
        requires
            pu == pj * pl,
            0 <= lr < pj,
            rest == lr * pl,
            pl > 0,
    ;
    assert(lq <= lo.mant) by (nonlinear_arith)
        requires
            lo.mant == lq * pj + lr,
            lr >= 0,
            pj >= 1,
            lq >= 0,
    ;
    assert(magnitude(sum) * pow2(0) == magnitude(sum)) by (nonlinear_arith)
        requires
            pow2(0) == 1,
    ;
    assert(1 * pow2(u) == pu);
    if hi.neg == lo.neg {
        let n: u128 = h + lq;
        assert(n * pu == h * pu + lq * pu && (n + 1) * pu == h * pu + lq * pu + pu)
            by (nonlinear_arith)
            requires
                n == h + lq,
        ;
        assert(n * pu > 0) by (nonlinear_arith)
            requires
                n > 0,
                pu > 0,
        ;
        pack(hi.neg, n, k, lr != 0, Ghost(magnitude(sum)), Ghost(1), Ghost(u), Ghost(0))
    } else {
        let n: u128 = if lr == 0 {
            h - lq
        } else {
            h - lq - 1
        };
        assert(n * pu == h * pu - lq * pu - (if lr == 0 {
            0
        } else {
            pu
        }) && (n + 1) * pu == n * pu + pu) by (nonlinear_arith)
            requires
                n == h - lq - (if lr == 0 {
                    0int
                } else {
                    1int
                }),
        ;
        assert(n * pu > 0) by (nonlinear_arith)
            requires
                n > 0,
                pu > 0,
        ;
        pack(hi.neg, n, k, lr != 0, Ghost(magnitude(sum)), Ghost(1), Ghost(u), Ghost(0))
    }
}

impl Binary64 {
    /// The sum.
    pub fn plus(self, other: Binary64) -> (r: Binary64)
        ensures
            r@ == self@.plus(other@),
    {
        if self.is_nan() || other.is_nan() {
            return nan();
        }
        if !self.is_finite() {
            if !other.is_finite() && self.negative() != other.negative() {
                return nan();
            }
            return self;
        }
        if !other.is_finite() {
            return other;
        }
        let a: Parts = self.parts();
        let b: Parts = other.parts();
        if a.shift >= b.shift {
            if a.shift <= b.shift + 70 {
                plus_near(a, b)
            } else {
                plus_far(a, b)
            }
        } else {
            if b.shift <= a.shift + 70 {
                plus_near(b, a)
            } else {
                plus_far(b, a)
            }
        }
    }

    /// The difference.
    pub fn minus(self, other: Binary64) -> (r: Binary64)
        ensures
            r@ == self@.minus(other@),
    {
        self.plus(other.negated())
    }

    /// The product.
    pub fn times(self, other: Binary64) -> (r: Binary64)
        ensures
            r@ == self@.times(other@),
    {
        if self.is_nan() || other.is_nan() {
            return nan();
        }
        let neg: bool = self.negative() != other.negative();
        proof {
            lemma_place(self);
            lemma_place(other);
        }
        if !self.is_finite() || !other.is_finite() {
            if self.low() == 0 || other.low() == 0 {
                return nan();
            }
            return infinite(neg);
        }
        let a: Parts = self.parts();
        let b: Parts = other.parts();
        let ghost m = a.mag();
        let ghost n = b.mag();
        proof {
            lemma_pow2_pos(1074);
            lemma_pow2_pos(a.shift as nat);
            lemma_pow2_pos(b.shift as nat);
        }
        if a.mant == 0 || b.mant == 0 {
            proof {
                assert(m * n == 0) by (nonlinear_arith)
                    requires
                        m == a.mant as nat * pow2(a.shift as nat),
                        n == b.mant as nat * pow2(b.shift as nat),
                        a.mant == 0 || b.mant == 0,
                ;
                lemma_settled_zero(neg, unit() as int);
            }
            return zero(neg);
        }
        assert(0 < a.mant as int * b.mant as int <= SPAN * SPAN) by (nonlinear_arith)
            requires
                0 < a.mant < SPAN,
                0 < b.mant < SPAN,
        ;
        proof {
            lemma_spans();
            lemma_pow2_adds(53, 53);
            lemma_pow2_strictly_increases(106, 127);
        }
        let x: u128 = a.mant as u128 * b.mant as u128;
        let ghost u = (a.shift + b.shift) as nat;
        proof {
            lemma_pow2_adds(a.shift as nat, b.shift as nat);
            assert((m * n) * pow2(1074) == x * (unit() * pow2(u))) by (nonlinear_arith)
                requires
                    m == a.mant as nat * pow2(a.shift as nat),
                    n == b.mant as nat * pow2(b.shift as nat),
                    pow2(u) == pow2(a.shift as nat) * pow2(b.shift as nat),
                    x == a.mant * b.mant,
                    unit() == pow2(1074),
            ;
        }
        let k: i32 = a.shift as i32 + b.shift as i32 - 1074;
        pack(neg, x, k, false, Ghost((m * n) as int), Ghost(unit() as int), Ghost(u), Ghost(1074))
    }
}

/// The same number with a significand that fills its 53 bits.
fn filled(mant: u64) -> (r: (u64, u32))
    requires
        0 < mant < SPAN,
    ensures
        HALF_SPAN <= r.0 < SPAN,
        r.0 == mant as nat * pow2(r.1 as nat),
        r.1 <= 52,
{
    let mut m: u64 = mant;
    let mut j: u32 = 0;
    proof {
        lemma2_to64();
        assert(mant as nat * pow2(0) == mant) by (nonlinear_arith)
            requires
                pow2(0) == 1,
        ;
    }
    while m < HALF_SPAN
        invariant
            0 < mant < SPAN,
            0 < m < SPAN,
            m == mant as nat * pow2(j as nat),
            m >= HALF_SPAN ==> j <= 52,
            m < HALF_SPAN ==> j < 52,
        decreases SPAN - m,
    {
        proof {
            lemma_pow2_unfold((j + 1) as nat);
            lemma2_to64_rest();
            assert(2 * m == mant as nat * pow2((j + 1) as nat)) by (nonlinear_arith)
                requires
                    m == mant as nat * pow2(j as nat),
                    pow2((j + 1) as nat) == 2 * pow2(j as nat),
            ;
            assert(2 * m >= pow2((j + 1) as nat)) by (nonlinear_arith)
                requires
                    2 * m == mant as nat * pow2((j + 1) as nat),
                    mant >= 1,
            ;
        }
        m = m * 2;
        j += 1;
    }
    (m, j)
}

impl Binary64 {
    /// The quotient.
    pub fn over(self, other: Binary64) -> (r: Binary64)
        ensures
            r@ == self@.over(other@),
    {
        if self.is_nan() || other.is_nan() {
            return nan();
        }
        let neg: bool = self.negative() != other.negative();
        if !self.is_finite() {
            if !other.is_finite() {
                return nan();
            }
            return infinite(neg);
        }
        if !other.is_finite() {
            return zero(neg);
        }
        let a: Parts = self.parts();
        let b: Parts = other.parts();
        let ghost m = a.mag();
        let ghost n = b.mag();
        proof {
            lemma_pow2_pos(1074);
            lemma_pow2_pos(a.shift as nat);
            lemma_pow2_pos(b.shift as nat);
            assert((m == 0) == (a.mant == 0) && (n == 0) == (b.mant == 0)) by (nonlinear_arith)
                requires
                    m == a.mant as nat * pow2(a.shift as nat),
                    n == b.mant as nat * pow2(b.shift as nat),
                    pow2(a.shift as nat) > 0,
                    pow2(b.shift as nat) > 0,
            ;
        }
        if b.mant == 0 {
            if a.mant == 0 {
                return nan();
            }
            return infinite(neg);
        }
        if a.mant == 0 {
            proof {
                assert(m * unit() == 0) by (nonlinear_arith)
                    requires
                        m == 0,
                ;
                lemma_settled_zero(neg, n as int);
            }
            return zero(neg);
        }
        let (am, j) = filled(a.mant);
        let p: u128 = power(74);
        proof {
            lemma_spans();
            lemma_pow2_adds(53, 74);
            lemma2_to64_rest();
            lemma_pow2_adds(64, 63);
            assert(HALF_SPAN * p <= am * p < SPAN * p) by (nonlinear_arith)
                requires
                    HALF_SPAN <= am < SPAN,
                    p > 0,
            ;
        }
        let top: u128 = am as u128 * p;
        let x: u128 = top / b.mant as u128;
        let rest: u128 = top % b.mant as u128;
        let ghost u = (a.shift + 1074 + b.shift) as nat;
        let ghost v = (j + 74 + b.shift + b.shift) as nat;
        let ghost scale = pow2(a.shift as nat) * pow2(1074) * pow2(b.shift as nat) * pow2(b.shift as nat);
        proof {
            lemma_fundamental_div_mod(top as int, b.mant as int);
            lemma_quotient_wide(am as int, b.mant as int, p as int, x as int, rest as int);
            lemma_pow2_adds(a.shift as nat, 1074);
            lemma_pow2_adds((a.shift + 1074) as nat, b.shift as nat);
            lemma_pow2_adds(j as nat, 74);
            lemma_pow2_adds((j + 74) as nat, b.shift as nat);
            lemma_pow2_adds((j + 74 + b.shift) as nat, b.shift as nat);
            lemma_pow2_strictly_increases(60, 73);
            assert((m * unit()) * pow2(v) == top * scale) by (nonlinear_arith)
                requires
                    m == a.mant as nat * pow2(a.shift as nat),
                    unit() == pow2(1074),
                    pow2(v) == pow2(j as nat) * p * pow2(b.shift as nat) * pow2(b.shift as nat),
                    am == a.mant as nat * pow2(j as nat),
                    top == am * p,
                    scale == pow2(a.shift as nat) * pow2(1074) * pow2(b.shift as nat) * pow2(
                        b.shift as nat,
                    ),
            ;
            assert(n * pow2(u) == b.mant * scale) by (nonlinear_arith)
                requires
                    n == b.mant as nat * pow2(b.shift as nat),
                    pow2(u) == pow2(a.shift as nat) * pow2(1074) * pow2(b.shift as nat),
                    scale == pow2(a.shift as nat) * pow2(1074) * pow2(b.shift as nat) * pow2(
                        b.shift as nat,
                    ),
            ;
            assert(scale > 0) by (nonlinear_arith)
                requires
                    scale == pow2(a.shift as nat) * pow2(1074) * pow2(b.shift as nat) * pow2(
                        b.shift as nat,
                    ),
                    pow2(a.shift as nat) > 0,
                    pow2(1074) > 0,
                    pow2(b.shift as nat) > 0,
            ;
            let c = b.mant * scale;
            assert(top * scale == x * c + rest * scale && (x + 1) * c == x * c + c)
                by (nonlinear_arith)
                requires
                    top == b.mant * x + rest,
                    c == b.mant * scale,
            ;
            assert(0 <= rest * scale < c && (rest * scale == 0) == (rest == 0))
                by (nonlinear_arith)
                requires
                    0 <= rest < b.mant,
                    scale > 0,
                    c == b.mant * scale,
            ;
            assert(m * unit() >= 0) by (nonlinear_arith)
                requires
                    m >= 0,
                    unit() >= 0,
            ;
        }
        let k: i32 = a.shift as i32 + 1000 - j as i32 - b.shift as i32;
        pack(
            neg,
            x,
            k,
            rest != 0,
            Ghost((m * unit()) as int),
            Ghost(n as int),
            Ghost(u),
            Ghost(v),
        )
    }

    /// The nearest whole number in the range of `u32`, halves away from zero.
    pub fn whole_u32(self) -> (r: u32)
        ensures
            r == self@.whole_u32(),
    {
        if self.is_nan() {
            return 0;
        }
        if self.negative() {
            return 0;
        }
        if !self.is_finite() {
            return u32::MAX;
        }
        let a: Parts = self.parts();
        let ghost m = a.mag() as int;
        let ghost one = unit() as int;
        let ghost ps = pow2(a.shift as nat) as int;
        proof {
            lemma_pow2_pos(1074);
            lemma_pow2_pos(a.shift as nat);
            lemma_spans();
            lemma2_to64();
            lemma2_to64_rest();
        }
        if a.shift >= 1074 {
            let d: u32 = a.shift - 1074;
            if d >= 32 {
                proof {
                    lemma_pow2_adds(1074, d as nat);
                    if d > 32 {
                        lemma_pow2_strictly_increases(32, d as nat);
                    }
                    assert(m >= u32::MAX * one + one) by (nonlinear_arith)
                        requires
                            m == a.mant * ps,
                            ps == one * pow2(d as nat),
                            pow2(d as nat) >= 0x1_0000_0000,
                            a.mant >= 1,
                            one > 0,
                    ;
                    lemma_half_up(m, one, u32::MAX as int);
                }
                return u32::MAX;
            }
            let p: u128 = power(d);
            proof {
                lemma_pow2_adds(1074, d as nat);
                if d < 32 {
                    lemma_pow2_strictly_increases(d as nat, 32);
                }
                assert(a.mant * p <= SPAN * 0x1_0000_0000) by (nonlinear_arith)
                    requires
                        a.mant <= SPAN,
                        0 <= p <= 0x1_0000_0000,
                ;
            }
            let x: u128 = a.mant as u128 * p;
            proof {
                assert(m == x * one) by (nonlinear_arith)
                    requires
                        m == a.mant * ps,
                        ps == one * p,
                        x == a.mant * p,
                ;
                lemma_half_exact(x as int, one);
            }
            if x > u32::MAX as u128 {
                u32::MAX
            } else {
                x as u32
            }
        } else {
            let j: u32 = 1074 - a.shift;
            proof {
                lemma_pow2_adds(j as nat, a.shift as nat);
            }
            if j >= 54 {
                proof {
                    if j > 54 {
                        lemma_pow2_strictly_increases(54, j as nat);
                    }
                    assert(2 * m < one) by (nonlinear_arith)
                        requires
                            m == a.mant * ps,
                            one == pow2(j as nat) * ps,
                            pow2(j as nat) >= 2 * SPAN,
                            a.mant < SPAN,
                            ps > 0,
                    ;
                    lemma_fundamental_div_mod(2 * m + one, 2 * one);
                    vstd::arithmetic::div_mod::lemma_fundamental_div_mod_converse(
                        2 * m + one,
                        2 * one,
                        0,
                        2 * m + one,
                    );
                }
                return 0;
            }
            let p: u128 = power(j);
            proof {
                if j < 54 {
                    lemma_pow2_strictly_increases(j as nat, 54);
                }
            }
            let t: u128 = 2 * a.mant as u128 + p;
            let x: u128 = t / (2 * p);
            proof {
                lemma_fundamental_div_mod(t as int, 2 * p as int);
                let r = t as int % (2 * p as int);
                assert(2 * m + one == x * (2 * one) + r * ps) by (nonlinear_arith)
                    requires
                        m == a.mant * ps,
                        one == p * ps,
                        t == 2 * a.mant + p,
                        t == (2 * p) * x + r,
                ;
                assert(0 <= r * ps < 2 * one) by (nonlinear_arith)
                    requires
                        0 <= r < 2 * p,
                        one == p * ps,
                        ps > 0,
                ;
                vstd::arithmetic::div_mod::lemma_fundamental_div_mod_converse(
                    2 * m + one,
                    2 * one,
                    x as int,
                    r * ps,
                );
            }
            if x > u32::MAX as u128 {
                u32::MAX
            } else {
                x as u32
            }
        }
    }
}

/// The quotient of a filled significand has digits enough to round by.
proof fn lemma_quotient_wide(am: int, bm: int, p: int, x: int, rest: int)
    requires
        HALF_SPAN <= am < SPAN,
        0 < bm < SPAN,
        p == pow2(74),
        am * p == bm * x + rest,
        0 <= rest < bm,
    ensures
        pow2(73) <= x < pow2(127),
{
    lemma_spans();
    lemma_pow2_adds(53, 73);
    lemma_pow2_adds(53, 74);
    lemma_pow2_adds(52, 74);
    lemma_pow2_pos(73);
    lemma_pow2_pos(74);
    let w = pow2(73) as int;
    assert(HALF_SPAN * p <= am * p < SPAN * p) by (nonlinear_arith)
        requires
            HALF_SPAN <= am < SPAN,
            p > 0,
    ;
    assert(HALF_SPAN * p == SPAN * w);
    assert(x >= w) by (nonlinear_arith)
        requires
            SPAN * w <= bm * x + rest,
            rest < bm,
            0 < bm < SPAN,
            w > 0,
    {
        if x < w {
            assert(bm * x + rest < bm * (x + 1));
            assert(bm * (x + 1) <= bm * w);
            assert(bm * w <= SPAN * w);
        }
    }
    assert(x <= am * p) by (nonlinear_arith)
        requires
            am * p == bm * x + rest,
            bm >= 1,
            rest >= 0,
            x >= 0,
    ;
}

proof fn lemma_half_exact(x: int, one: int)
    requires
        one > 0,
    ensures
        (2 * (x * one) + one) / (2 * one) == x,
{
    assert(2 * (x * one) + one == x * (2 * one) + one) by (nonlinear_arith);
    vstd::arithmetic::div_mod::lemma_fundamental_div_mod_converse(
        2 * (x * one) + one,
        2 * one,
        x,
        one,
    );
}

proof fn lemma_half_up(m: int, one: int, k: int)
    requires
        one > 0,
        m >= k * one + one,
    ensures
        (2 * m + one) / (2 * one) > k,
{
    let q = (2 * m + one) / (2 * one);
    lemma_fundamental_div_mod(2 * m + one, 2 * one);
    let r = (2 * m + one) % (2 * one);
    assert(q > k) by (nonlinear_arith)
        requires
            2 * m + one == (2 * one) * q + r,
            0 <= r < 2 * one,
            m >= k * one + one,
            one > 0,
    ;
}

proof fn lemma_settled_zero(neg: bool, den: int)
    requires
        den > 0,
    ensures
        settled(neg, 0, den) == (Datum::Finite { neg, mag: 0 }),
{
    lemma2_to64();
    lemma_pow2_pos(2098);
    crate::rounding::lemma_rounded_exact(0, 0, den);
    assert((0 * pow2(0)) * den == 0) by (nonlinear_arith);
    assert(0 * pow2(0) == 0) by (nonlinear_arith);
}

/// What the bits of a number say: a sign, eleven bits of exponent and 52 of fraction. With an
/// exponent of nothing the fraction counts units. With one of all ones the number is infinite, or
/// none where there is a fraction. Otherwise the fraction stands behind a one, and each step of
/// the exponent doubles what it counts.
pub proof fn law_bits_are_sign_exponent_and_fraction(x: Binary64, neg: bool, e: int, f: int)
    requires
        0 <= e < 0x800,
        0 <= f < 0x10_0000_0000_0000,
        x.bits == (if neg {
            0x8000_0000_0000_0000
        } else {
            0int
        }) + e * 0x10_0000_0000_0000 + f,
    ensures
        e == 0 ==> x@ == (Datum::Finite { neg, mag: f as nat }),
        0 < e < 0x7ff ==> x@ == (Datum::Finite {
            neg,
            mag: ((0x10_0000_0000_0000 + f) * pow2((e - 1) as nat)) as nat,
        }),
        e == 0x7ff && f == 0 ==> x@ == (Datum::Infinite { neg }),
        e == 0x7ff && f > 0 ==> x@ is Nan,
{
    let low = e * 0x10_0000_0000_0000 + f;
    assert(x.bits as int % 0x8000_0000_0000_0000 == low);
    assert(low / 0x10_0000_0000_0000 == e && low % 0x10_0000_0000_0000 == f);
}

} // verus!
