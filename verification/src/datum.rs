//! What a binary64 number stands for, and what its arithmetic gives.
//!
//! Results are rounded to nearest, ties to even. A finite magnitude is counted in units of two
//! to the power -1074, the smallest positive value of the format.
use crate::rounding::{lemma_rounded_exact, lemma_spans, rounded, SPAN};
use vstd::arithmetic::power2::{
    lemma_pow2_adds, lemma_pow2_pos, lemma_pow2_strictly_increases, pow2,
};
use vstd::prelude::*;

verus! {

/// A binary64 datum: not a number, an infinity, or a signed magnitude.
pub enum Datum {
    Nan,
    Infinite { neg: bool },
    Finite { neg: bool, mag: nat },
}

/// The number one, in units.
pub open spec fn unit() -> nat {
    pow2(1074)
}

/// The first magnitude past the finite ones, in units: two to the power 1024.
pub open spec fn top() -> nat {
    pow2(2098)
}

/// The datum for the exact magnitude `num / den` units with the given sign.
pub open spec fn settled(neg: bool, num: int, den: int) -> Datum {
    let m = rounded(num, den);
    if m >= top() {
        Datum::Infinite { neg }
    } else {
        Datum::Finite { neg, mag: m as nat }
    }
}

pub open spec fn magnitude(x: int) -> int {
    if x < 0 {
        -x
    } else {
        x
    }
}

impl Datum {
    /// The whole number `n`, which must have at most 53 significant bits.
    pub open spec fn whole(n: int) -> Datum {
        Datum::Finite { neg: n < 0, mag: (magnitude(n) * unit()) as nat }
    }

    /// The whole number `n`, rounded.
    pub open spec fn nearest(n: int) -> Datum {
        settled(n < 0, magnitude(n) * unit(), 1)
    }

    /// Where the datum lies on the number line, in units; the infinities lie at the first
    /// magnitude past the finite ones. Not a number lies nowhere.
    pub open spec fn place(self) -> int {
        match self {
            Datum::Nan => 0,
            Datum::Infinite { neg } => if neg {
                -(top() as int)
            } else {
                top() as int
            },
            Datum::Finite { neg, mag } => if neg {
                -(mag as int)
            } else {
                mag as int
            },
        }
    }

    /// `self < other`; false where either is not a number.
    pub open spec fn lt(self, other: Datum) -> bool {
        &&& !(self is Nan)
        &&& !(other is Nan)
        &&& self.place() < other.place()
    }

    /// `self <= other`; false where either is not a number.
    pub open spec fn le(self, other: Datum) -> bool {
        &&& !(self is Nan)
        &&& !(other is Nan)
        &&& self.place() <= other.place()
    }

    pub open spec fn negated(self) -> Datum {
        match self {
            Datum::Nan => Datum::Nan,
            Datum::Infinite { neg } => Datum::Infinite { neg: !neg },
            Datum::Finite { neg, mag } => Datum::Finite { neg: !neg, mag },
        }
    }

    pub open spec fn plus(self, other: Datum) -> Datum {
        match (self, other) {
            (Datum::Nan, _) => Datum::Nan,
            (_, Datum::Nan) => Datum::Nan,
            (Datum::Infinite { neg: a }, Datum::Infinite { neg: b }) => if a == b {
                self
            } else {
                Datum::Nan
            },
            (Datum::Infinite { .. }, _) => self,
            (_, Datum::Infinite { .. }) => other,
            (Datum::Finite { neg: a, .. }, Datum::Finite { neg: b, .. }) => {
                let sum = self.place() + other.place();
                if sum == 0 {
                    Datum::Finite { neg: a && b, mag: 0 }
                } else {
                    settled(sum < 0, magnitude(sum), 1)
                }
            },
        }
    }

    pub open spec fn minus(self, other: Datum) -> Datum {
        self.plus(other.negated())
    }

    pub open spec fn times(self, other: Datum) -> Datum {
        match (self, other) {
            (Datum::Nan, _) => Datum::Nan,
            (_, Datum::Nan) => Datum::Nan,
            (Datum::Infinite { neg: a }, Datum::Infinite { neg: b }) => Datum::Infinite { neg: a != b },
            (Datum::Infinite { neg: a }, Datum::Finite { neg: b, mag }) => if mag == 0 {
                Datum::Nan
            } else {
                Datum::Infinite { neg: a != b }
            },
            (Datum::Finite { neg: a, mag }, Datum::Infinite { neg: b }) => if mag == 0 {
                Datum::Nan
            } else {
                Datum::Infinite { neg: a != b }
            },
            (Datum::Finite { neg: a, mag: m }, Datum::Finite { neg: b, mag: n }) => settled(
                a != b,
                (m * n) as int,
                unit() as int,
            ),
        }
    }

    pub open spec fn over(self, other: Datum) -> Datum {
        match (self, other) {
            (Datum::Nan, _) => Datum::Nan,
            (_, Datum::Nan) => Datum::Nan,
            (Datum::Infinite { .. }, Datum::Infinite { .. }) => Datum::Nan,
            (Datum::Infinite { neg: a }, Datum::Finite { neg: b, .. }) => Datum::Infinite { neg: a != b },
            (Datum::Finite { neg: a, .. }, Datum::Infinite { neg: b }) => Datum::Finite {
                neg: a != b,
                mag: 0,
            },
            (Datum::Finite { neg: a, mag: m }, Datum::Finite { neg: b, mag: n }) => if n == 0 {
                if m == 0 {
                    Datum::Nan
                } else {
                    Datum::Infinite { neg: a != b }
                }
            } else {
                settled(a != b, (m * unit()) as int, n as int)
            },
        }
    }

    /// The larger of two data; the other one where one is not a number.
    pub open spec fn larger(self, other: Datum) -> Datum {
        if self is Nan {
            other
        } else if self.lt(other) {
            other
        } else {
            self
        }
    }

    /// The smaller of two data; the other one where one is not a number.
    pub open spec fn smaller(self, other: Datum) -> Datum {
        if self is Nan {
            other
        } else if other.lt(self) {
            other
        } else {
            self
        }
    }

    /// Held between two bounds; not a number stays what it is.
    pub open spec fn held(self, low: Datum, high: Datum) -> Datum {
        if self.lt(low) {
            low
        } else if high.lt(self) {
            high
        } else {
            self
        }
    }

    /// The nearest whole number, the one farther from zero of two that are as near, held
    /// to the range of `u32`; not a number gives 0.
    pub open spec fn whole_u32(self) -> u32 {
        match self {
            Datum::Nan => 0,
            Datum::Infinite { neg } => if neg {
                0
            } else {
                u32::MAX
            },
            Datum::Finite { neg, mag } => {
                let n = (2 * mag + unit()) / (2 * unit());
                if neg {
                    0
                } else if n > u32::MAX {
                    u32::MAX
                } else {
                    n as u32
                }
            },
        }
    }

    pub open spec fn is_finite(self) -> bool {
        self is Finite
    }
}

/// A whole number of at most 53 bits is its own rounding, and is finite.
pub proof fn lemma_nearest_whole(n: int)
    requires
        0 <= n < SPAN,
    ensures
        Datum::nearest(n) == Datum::whole(n),
        n * unit() < top(),
{
    lemma_rounded_exact(n, 1074, 1);
    lemma_pow2_pos(1074);
    lemma_spans();
    lemma_pow2_adds(53, 1074);
    lemma_pow2_strictly_increases(1127, 2098);
    assert((n * pow2(1074)) * 1 == n * unit());
    assert(0 <= n * unit() < SPAN * unit()) by (nonlinear_arith)
        requires
            0 <= n < SPAN,
            unit() > 0,
    ;
}

/// Whole numbers lie on the number line in their own order.
pub proof fn lemma_whole_order(a: int, b: int)
    ensures
        Datum::whole(a).place() == a * unit(),
        Datum::whole(b).place() == b * unit(),
        a == 0 ==> Datum::whole(a).place() == 0,
        b == 0 ==> Datum::whole(b).place() == 0,
        Datum::whole(a).lt(Datum::whole(b)) == (a < b),
        Datum::whole(a).le(Datum::whole(b)) == (a <= b),
{
    lemma_pow2_pos(1074);
    assert(magnitude(a) * unit() >= 0 && magnitude(b) * unit() >= 0) by (nonlinear_arith)
        requires
            magnitude(a) >= 0,
            magnitude(b) >= 0,
            unit() > 0,
    ;
    assert(0 * unit() == 0) by (nonlinear_arith);
    assert(a < 0 ==> -(magnitude(a) * unit()) == a * unit()) by (nonlinear_arith);
    assert(b < 0 ==> -(magnitude(b) * unit()) == b * unit()) by (nonlinear_arith);
    assert((a * unit() < b * unit()) == (a < b)) by (nonlinear_arith)
        requires
            unit() > 0,
    ;
    assert((a * unit() <= b * unit()) == (a <= b)) by (nonlinear_arith)
        requires
            unit() > 0,
    ;
}

} // verus!
