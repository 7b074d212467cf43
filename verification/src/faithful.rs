//! That the speeds are the ones that the arithmetic of real numbers gives, to within a hair: two
//! to the power -16 of an rpm.
//!
//! The laws here speak of where numbers lie on the number line, in units, and multiply quotients
//! out, so that they are relations between whole numbers.
use crate::accuracy::{
    bit, hair, lemma_over_error, lemma_plus_error, lemma_scales, lemma_times_error,
};
use crate::binary64::Binary64;
use crate::config::SensorConfig;
use crate::control::{
    baseline_of, ceiling_of, lemma_between_is_finite, lemma_prevailing_in_range, Governor,
    Reason, Sensor,
};
use crate::datum::{lemma_whole_order, magnitude, unit, Datum};
use crate::order::{
    grain, lemma_grains, lemma_minus_sign, lemma_over_itself, lemma_over_monotone,
    lemma_plus_at_least, lemma_plus_at_most, lemma_plus_monotone, lemma_proper, lemma_settled,
    lemma_whole_proper, lemma_whole_u32_is_nearest,
};
use crate::policy::{
    law_a_demand_lies_between_the_ramp_and_the_cap, law_the_ramp_ends_at_the_maximum,
    law_the_ramp_rises_with_temperature, law_the_ramp_starts_at_the_floor,
    lemma_product_sign_known, lemma_speeds, ordinary, push, settings_ordered,
};
use crate::rounding::{lemma_rounded_exact, lemma_rounded_monotone, lemma_spans, HALF_SPAN, SPAN};
use vstd::arithmetic::power2::{
    lemma2_to64, lemma2_to64_rest, lemma_pow2_adds, lemma_pow2_pos, lemma_pow2_strictly_increases,
    pow2,
};
use vstd::prelude::*;

verus! {

/// The difference between what the ramp gives and what it should, each step taken for itself.
proof fn lemma_ramp_error(
    part: int,
    span: int,
    d: int,
    s: int,
    f: int,
    w: int,
    p: int,
    r: int,
    l: int,
    h: int,
)
    requires
        0 <= part <= span,
        span > 0,
        h >= 1,
        magnitude(d - part) * SPAN <= part,
        magnitude(s - span) * SPAN <= span,
        0 <= f <= SPAN * h,
        magnitude(f * s - d * (SPAN * h)) * SPAN <= d * (SPAN * h) + HALF_SPAN * s,
        magnitude(p - f * w) * SPAN <= f * w + HALF_SPAN,
        0 <= w <= 0xffff_ffff,
        0 <= l <= 0xffff_ffff,
        magnitude(r - (l * (SPAN * h) + p)) * SPAN <= magnitude(l * (SPAN * h) + p),
        p >= 0,
        d >= 0,
        s >= 0,
    ensures
        magnitude((r - l * (SPAN * h)) * span - part * (w * (SPAN * h))) <= (0x20_0000_0000 * h)
            * span,
{
    let one = SPAN * h;
    assert(d <= 2 * part && s <= 2 * span);
    let e1 = magnitude(span - s);
    assert(f * e1 <= h * span) by (nonlinear_arith)
        requires
            0 <= f <= SPAN * h,
            e1 * SPAN <= span,
            e1 >= 0,
            h >= 1,
    ;
    assert(magnitude(f * span - f * s) <= h * span) by {
        assert(f * span - f * s == f * (span - s)) by (nonlinear_arith);
        if span >= s {
            assert(f * (span - s) == f * e1);
        } else {
            assert(f * (span - s) == -(f * e1)) by (nonlinear_arith)
                requires
                    e1 == s - span,
            ;
        }
        assert(f * e1 >= 0) by (nonlinear_arith)
            requires
                f >= 0,
                e1 >= 0,
        ;
    }
    let e2 = magnitude(f * s - d * one);
    assert(e2 <= d * h + s) by (nonlinear_arith)
        requires
            e2 * SPAN <= d * (SPAN * h) + HALF_SPAN * s,
            s >= 0,
    ;
    let e3 = magnitude(d - part);
    assert(e3 * one <= part * h) by (nonlinear_arith)
        requires
            one == SPAN * h,
            e3 * SPAN <= part,
            h >= 1,
    ;
    assert(magnitude(d * one - part * one) == e3 * one) by {
        assert(one >= 0);
        assert(d * one - part * one == (d - part) * one) by (nonlinear_arith);
        if d >= part {
            assert((d - part) * one == e3 * one);
        } else {
            assert((d - part) * one == -(e3 * one)) by (nonlinear_arith)
                requires
                    e3 == part - d,
            ;
        }
        assert(e3 * one >= 0) by (nonlinear_arith)
            requires
                e3 >= 0,
                one >= 0,
        ;
    }
    // What the fraction is off by, over the whole span.
    let x = f * span - part * one;
    assert(magnitude(x) <= 6 * (h * span)) by {
        assert(d * h <= 2 * (h * span)) by (nonlinear_arith)
            requires
                d <= 2 * part,
                part <= span,
                h >= 1,
        ;
        assert(part * h <= h * span) by (nonlinear_arith)
            requires
                part <= span,
                h >= 1,
        ;
        assert(s <= 2 * (h * span)) by (nonlinear_arith)
            requires
                s <= 2 * span,
                h >= 1,
                span > 0,
        ;
    }
    let e4 = magnitude(p - f * w);
    assert(e4 <= h * w + 1) by (nonlinear_arith)
        requires
            e4 * SPAN <= f * w + HALF_SPAN,
            f <= SPAN * h,
            w >= 0,
    ;
    assert(0 <= f * w && f * w <= one * w) by (nonlinear_arith)
        requires
            0 <= f <= one,
            w >= 0,
    ;
    let e5 = magnitude(r - (l * one + p));
    assert(l * one >= 0) by (nonlinear_arith)
        requires
            l >= 0,
            one >= 0,
    ;
    assert(e5 <= l * h + 2 * (h * w) + 1) by (nonlinear_arith)
        requires
            e5 * SPAN <= l * one + p,
            p <= one * w + h * w + 1,
            one == SPAN * h,
            h * w >= 0,
    ;
    let total = (r - l * one) * span - part * (w * one);
    assert(total == (r - (l * one + p)) * span + (p - f * w) * span + w * x) by (nonlinear_arith)
        requires
            total == (r - l * one) * span - part * (w * one),
            x == f * span - part * one,
    ;
    assert(h * w <= 0xffff_ffff * h && l * h <= 0xffff_ffff * h && h * w >= 0) by (nonlinear_arith)
        requires
            0 <= w <= 0xffff_ffff,
            0 <= l <= 0xffff_ffff,
            h >= 1,
    ;
    let k5 = r - (l * one + p);
    let k4 = p - f * w;
    assert(magnitude(k5 * span) <= 0x4_0000_0000 * (h * span)) by (nonlinear_arith)
        requires
            -(0x3_ffff_ffff * h + 1) <= k5 <= 0x3_ffff_ffff * h + 1,
            h >= 1,
            span > 0,
    ;
    assert(magnitude(k4 * span) <= 0x2_0000_0000 * (h * span)) by (nonlinear_arith)
        requires
            -(0xffff_ffff * h + 1) <= k4 <= 0xffff_ffff * h + 1,
            h >= 1,
            span > 0,
    ;
    assert(magnitude(w * x) <= 0x6_0000_0000 * (h * span)) by (nonlinear_arith)
        requires
            -(6 * (h * span)) <= x <= 6 * (h * span),
            0 <= w <= 0xffff_ffff,
            h * span >= 0,
    ;
    assert((0x20_0000_0000 * h) * span == 0x20_0000_0000 * (h * span)) by (nonlinear_arith);
    assert(h * span >= 0) by (nonlinear_arith)
        requires
            h >= 1,
            span > 0,
    ;
}

/// The ramp is linear: between its two ends it has risen by the same part of the range as the
/// temperature has risen of the way from one end to the other. Multiplied out, and to within a
/// hair, `(ramp - min) * (critical - from) == (temp - from) * (max - min)`.
pub proof fn law_the_ramp_is_linear(cfg: SensorConfig, temp: Binary64, low: u32, high: u32)
    requires
        cfg.baseline_from@.is_finite(),
        cfg.critical@.is_finite(),
        temp@.is_finite(),
        cfg.baseline_from@.place() < cfg.critical@.place(),
        cfg.critical@.place() - cfg.baseline_from@.place() <= pow2(2097),
        cfg.baseline_from@.place() <= temp@.place() <= cfg.critical@.place(),
        low <= high,
    ensures
        ({
            let ramp = baseline_of(
                cfg,
                temp@,
                Datum::whole(low as int),
                Datum::whole(high as int),
            );
            let span = cfg.critical@.place() - cfg.baseline_from@.place();
            let part = temp@.place() - cfg.baseline_from@.place();
            &&& ramp.is_finite()
            &&& magnitude((ramp.place() - low * unit()) * span - part * ((high - low) * unit()))
                <= hair() * span
        }),
{
    let min = Datum::whole(low as int);
    let max = Datum::whole(high as int);
    let from = cfg.baseline_from@;
    let span = cfg.critical@.place() - from.place();
    let part = temp@.place() - from.place();
    let h = bit() as int;
    let one = unit() as int;
    lemma_scales();
    lemma_speeds(low, high);
    lemma_whole_order(0, 1);
    lemma_whole_order(low as int, high as int);
    lemma_whole_order(high - low, high - low);
    assert(from.negated().place() == -from.place());
    lemma_plus_error(temp@, from.negated());
    lemma_plus_error(cfg.critical@, from.negated());
    let d = temp@.minus(from);
    let s = cfg.critical@.minus(from);
    lemma_minus_sign(temp@, from);
    lemma_minus_sign(cfg.critical@, from);
    lemma_proper(temp);
    lemma_proper(cfg.critical);
    lemma_plus_monotone(temp@, cfg.critical@, from.negated());
    // The fraction.
    lemma_pow2_strictly_increases(1074, 2097);
    assert(d.place() * one <= pow2(2097) * s.place()) by (nonlinear_arith)
        requires
            0 <= d.place() <= s.place(),
            0 <= one <= pow2(2097),
    ;
    lemma_over_error(d, s);
    lemma_over_itself(s);
    lemma_over_monotone(d, s, s);
    let f = d.over(s);
    assert(f.place() <= one);
    assert(f.held(Datum::whole(0), Datum::whole(1)) == f);
    // Its part of the range.
    let width = max.minus(min);
    let w = high - low;
    assert(width.place() == w * one);
    let fw = f.place() * w;
    assert(f.place() * width.place() == fw * one) by (nonlinear_arith)
        requires
            width.place() == w * one,
            fw == f.place() * w,
    ;
    assert(0 <= fw && fw * one <= pow2(2097) * one && fw <= one * 0xffff_ffff) by {
        lemma2_to64();
        lemma_pow2_adds(32, 1074);
        lemma_pow2_strictly_increases(1106, 2097);
        assert(0 <= fw <= one * 0xffff_ffff) by (nonlinear_arith)
            requires
                fw == f.place() * w,
                0 <= f.place() <= one,
                0 <= w <= 0xffff_ffff,
        ;
        assert(fw * one <= pow2(2097) * one) by (nonlinear_arith)
            requires
                fw <= pow2(2097),
                one >= 0,
        ;
    }
    assert(fw * one >= 0) by (nonlinear_arith)
        requires
            fw >= 0,
            one >= 0,
    ;
    lemma_times_error(f, width);
    let p = f.times(width);
    assert(magnitude(p.place() - fw) * SPAN <= fw + HALF_SPAN) by {
        let k = p.place() - fw;
        assert(p.place() * one - fw * one == k * one) by (nonlinear_arith)
            requires
                k == p.place() - fw,
        ;
        assert(magnitude(k * one) == magnitude(k) * one) by (nonlinear_arith)
            requires
                one > 0,
        ;
        assert(magnitude(k) * SPAN <= fw + HALF_SPAN) by (nonlinear_arith)
            requires
                (magnitude(k) * one) * SPAN <= fw * one + HALF_SPAN * one,
                one > 0,
        ;
    }
    lemma_product_sign_known(f, width);
    // And the sum.
    let sum = low * one + p.place();
    assert(0 <= low * one && low * one <= one * 0xffff_ffff) by (nonlinear_arith)
        requires
            0 <= low <= 0xffff_ffff,
            one >= 0,
    ;
    assert(magnitude(p.place() - fw) <= fw + HALF_SPAN);
    assert(sum <= pow2(2097)) by {
        lemma2_to64();
        lemma2_to64_rest();
        lemma_spans();
        lemma_pow2_adds(34, 1074);
        lemma_pow2_strictly_increases(1108, 2097);
        lemma_pow2_strictly_increases(52, 1074);
    }
    lemma_plus_error(min, p);
    lemma_ramp_error(
        part,
        span,
        d.place(),
        s.place(),
        f.place(),
        w,
        p.place(),
        min.plus(p).place(),
        low as int,
        h,
    );
}

/// Beyond its two ends the ramp is flat: it asks for the floor below and for the maximum above.
pub proof fn law_the_ramp_is_flat_beyond_its_ends(
    cfg: SensorConfig,
    temp: Binary64,
    low: u32,
    high: u32,
)
    requires
        settings_ordered(cfg),
        temp@.is_finite(),
        cfg.critical@.place() - cfg.baseline_from@.place() <= pow2(2097),
        low <= high,
    ensures
        ({
            let ramp = baseline_of(
                cfg,
                temp@,
                Datum::whole(low as int),
                Datum::whole(high as int),
            );
            &&& temp@.place() <= cfg.baseline_from@.place() ==> ramp.place() == low * unit()
            &&& temp@.place() >= cfg.critical@.place() ==> ramp.place() == high * unit()
        }),
{
    let from = cfg.baseline_from@;
    lemma_whole_order(low as int, high as int);
    assert(from.negated().place() == -from.place());
    lemma_plus_error(cfg.critical@, from.negated());
    lemma_minus_sign(cfg.critical@, from);
    lemma_minus_sign(temp@, from);
    lemma_proper(temp);
    lemma_proper(cfg.critical);
    if temp@.place() <= from.place() {
        law_the_ramp_starts_at_the_floor(cfg, temp@, low, high);
    }
    if temp@.place() >= cfg.critical@.place() {
        law_the_ramp_ends_at_the_maximum(cfg, low, high);
        law_the_ramp_rises_with_temperature(cfg, cfg.critical@, temp@, low, high);
    }
}

/// A product of two numbers that are not negative which is at least a number of grains is
/// rounded to no less.
proof fn lemma_times_at_least(a: Datum, b: Datum, k: int)
    requires
        a.is_finite(),
        b.is_finite(),
        a.place() >= 0,
        b.place() >= 0,
        0 < k < SPAN,
        a.place() * b.place() >= (k * grain()) * unit(),
    ensures
        !(a.times(b) is Nan),
        a.times(b).place() >= k * grain(),
{
    let m = a->mag as int;
    let n = b->mag as int;
    let one = unit() as int;
    lemma_grains(k);
    lemma_pow2_pos(1074);
    assert(m == a.place() && n == b.place());
    assert(k * grain() > 0) by (nonlinear_arith)
        requires
            k > 0,
            grain() > 0,
    ;
    assert((k * grain()) * one > 0) by (nonlinear_arith)
        requires
            k * grain() > 0,
            one > 0,
    ;
    assert(m > 0 && n > 0) by (nonlinear_arith)
        requires
            m * n > 0,
            m >= 0,
            n >= 0,
    ;
    lemma_rounded_exact(k, 1054, one);
    assert(((k * grain()) * one) * one <= (m * n) * one) by (nonlinear_arith)
        requires
            m * n >= (k * grain()) * one,
            one > 0,
    ;
    lemma_rounded_monotone((k * grain()) * one, one, m * n, one);
    lemma_settled((a->Finite_neg) != (b->Finite_neg), m * n, one);
}

/// The limit on a change of speed is the ramp times the time, where that is less than any range
/// of speeds, and is no limit otherwise.
proof fn lemma_limit(ramp: Datum, dt: Datum)
    requires
        ramp.is_finite(),
        dt.is_finite(),
        ramp.place() >= 0,
        dt.place() >= 0,
    ensures
        ({
            let exact = ramp.place() * dt.place();
            let limit = ramp.times(dt);
            let most = 0x1_0000_0000 * unit();
            &&& !(limit is Nan)
            &&& limit.place() >= 0
            &&& exact >= 0
            &&& exact >= most * unit() ==> limit.place() >= most
            &&& exact < most * unit() ==> {
                &&& limit.is_finite()
                &&& magnitude(limit.place() * unit() - exact) <= (0x2_0000_0000 * bit()) * unit()
            }
        }),
{
    let exact = ramp.place() * dt.place();
    let limit = ramp.times(dt);
    let one = unit() as int;
    let most = 0x1_0000_0000 * one;
    let h = bit() as int;
    lemma_scales();
    lemma_product_sign_known(ramp, dt);
    lemma_whole_order(0, 0);
    assert(exact >= 0) by (nonlinear_arith)
        requires
            exact == ramp.place() * dt.place(),
            ramp.place() >= 0,
            dt.place() >= 0,
    ;
    lemma_grains(0x10_0000_0000_0000);
    assert(0x10_0000_0000_0000 * grain() == most);
    if exact >= most * one {
        lemma_times_at_least(ramp, dt, 0x10_0000_0000_0000);
    } else {
        assert(most <= pow2(2097)) by {
            lemma2_to64();
            lemma_pow2_adds(32, 1074);
            lemma_pow2_strictly_increases(1106, 2097);
        }
        assert(most * one <= pow2(2097) * one) by (nonlinear_arith)
            requires
                most <= pow2(2097),
                one > 0,
        ;
        lemma_times_error(ramp, dt);
        let x = magnitude(limit.place() * one - exact);
        assert(x <= (0x2_0000_0000 * h) * one) by (nonlinear_arith)
            requires
                x * SPAN <= exact + HALF_SPAN * one,
                exact <= (0x1_0000_0000 * one) * one,
                one == SPAN * h,
                h >= 1,
        ;
    }
}

/// A number held to within a limit of nothing is off by no more than the number and the limit.
proof fn lemma_held_error(a: int, b: int, p: int, q: int, e: int)
    requires
        p >= 0,
        q >= 0,
        magnitude(a - b) <= e,
        magnitude(p - q) <= e,
    ensures
        ({
            let x = if a < -p {
                -p
            } else if a > p {
                p
            } else {
                a
            };
            let y = if b < -q {
                -q
            } else if b > q {
                q
            } else {
                b
            };
            magnitude(x - y) <= e
        }),
{
}

/// A step is a step: it takes the speed all the way to the demand that prevails where that lies
/// within what the ramp covers in `dt` seconds, up with `ramp_up` and down with `ramp_down`, and
/// by what the ramp covers towards it where it does not. Multiplied out, to within a hair. A rise
/// for an urgent reason goes all the way at once. The command is the whole number of rpm nearest
/// to that speed.
pub proof fn law_a_step_covers_what_the_ramp_allows(g: Governor, dt: Binary64, low: u32, high: u32)
    requires
        g.valid(),
        g.min_rpm@ == Datum::whole(low as int),
        g.max_rpm@ == Datum::whole(high as int),
        g.ramp_up@.is_finite(),
        g.ramp_down@.is_finite(),
        g.ramp_up@.place() >= 0,
        g.ramp_down@.place() >= 0,
        dt@.is_finite(),
        dt@.place() >= 0,
    ensures
        ({
            let (target, reason) = g.verdict(dt@);
            let next = g.speed_after(dt@);
            let here = g.current@.place();
            let there = target.place();
            let way = (there - here) * unit();
            let covered = (if here < there {
                g.ramp_up@
            } else {
                g.ramp_down@
            }).place() * dt@.place();
            let change = if way > covered {
                covered
            } else if way < -covered {
                -covered
            } else {
                way
            };
            &&& next.is_finite()
            &&& low * unit() <= there <= high * unit()
            &&& here < there && reason.is_urgent() ==> next.place() == there
            &&& !(here < there && reason.is_urgent()) ==> magnitude(
                next.place() * unit() - (here * unit() + change),
            ) <= hair() * unit()
            &&& 2 * magnitude(next.whole_u32() * unit() - next.place()) <= unit()
        }),
{
    let min = g.min_rpm@;
    let max = g.max_rpm@;
    let current = g.current@;
    let (target, reason) = g.verdict(dt@);
    let here = current.place();
    let there = target.place();
    let one = unit() as int;
    let h = bit() as int;
    lemma_scales();
    lemma_proper(g.min_rpm);
    lemma_proper(g.max_rpm);
    lemma_proper(g.current);
    lemma_whole_order(low as int, high as int);
    lemma_whole_order(0, high as int);
    lemma_prevailing_in_range(g.sensors@, dt@, min, max);
    lemma_between_is_finite(target, min, max);
    lemma_between_is_finite(current, min, max);
    assert(0 <= low * one && high * one <= 0xffff_ffff * one) by (nonlinear_arith)
        requires
            0 <= low,
            high <= 0xffff_ffff,
            one > 0,
    ;
    let next = g.speed_after(dt@);
    if reason.is_urgent() && here < there {
        assert(target.held(min, max) == target);
    } else {
        let ramp = if here < there {
            g.ramp_up@
        } else {
            g.ramp_down@
        };
        let covered = ramp.place() * dt@.place();
        let way = (there - here) * one;
        lemma_limit(ramp, dt@);
        let limit = ramp.times(dt@);
        let most = 0x1_0000_0000 * one;
        assert(most <= pow2(2096)) by {
            lemma2_to64();
            lemma_pow2_adds(32, 1074);
            lemma_pow2_strictly_increases(1106, 2096);
        }
        lemma2_to64();
        lemma_pow2_adds(1, 2096);
        // The gap.
        assert(current.negated().place() == -here);
        lemma_plus_error(target, current.negated());
        let gap = target.minus(current);
        assert(magnitude(gap.place() - (there - here)) <= 0x1_0000_0000 * h);
        assert(limit.negated().place() == -limit.place());
        let change = gap.held(limit.negated(), limit);
        assert(change.is_finite());
        // The change, against the exact one.
        let a = gap.place() * one;
        let l = limit.place() * one;
        let e = (0x2_0000_0000 * h) * one;
        assert(magnitude(a - way) <= e) by (nonlinear_arith)
            requires
                a == gap.place() * one,
                way == (there - here) * one,
                -(0x1_0000_0000 * h) <= gap.place() - (there - here) <= 0x1_0000_0000 * h,
                e == (0x2_0000_0000 * h) * one,
                one > 0,
                h > 0,
        ;
        let exact = if way > covered {
            covered
        } else if way < -covered {
            -covered
        } else {
            way
        };
        assert((gap.place() < -limit.place()) == (a < -l) && (gap.place() > limit.place()) == (a
            > l)) by (nonlinear_arith)
            requires
                a == gap.place() * one,
                l == limit.place() * one,
                one > 0,
        ;
        assert((-limit.place()) * one == -l) by (nonlinear_arith)
            requires
                l == limit.place() * one,
        ;
        assert(l >= 0) by (nonlinear_arith)
            requires
                l == limit.place() * one,
                limit.place() >= 0,
                one > 0,
        ;
        assert(-(most * one) < way && way < most * one) by (nonlinear_arith)
            requires
                way == (there - here) * one,
                -most < there - here < most,
                one > 0,
        ;
        if covered < most * one {
            lemma_held_error(a, way, l, covered, e);
        } else {
            assert(change == gap);
        }
        assert(magnitude(change.place() * one - exact) <= e);
        // The sum.
        lemma_plus_error(current, change);
        let x = current.plus(change);
        let off = x.place() - (here + change.place());
        assert(magnitude(off) <= 0x2_0000_0000 * h);
        let goal = here * one + exact;
        let y = x.place() * one;
        assert(magnitude(y - goal) <= hair() * one) by {
            assert(y == here * one + change.place() * one + off * one) by (nonlinear_arith)
                requires
                    y == x.place() * one,
                    off == x.place() - (here + change.place()),
            ;
            assert(magnitude(off * one) <= (0x2_0000_0000 * h) * one) by (nonlinear_arith)
                requires
                    -(0x2_0000_0000 * h) <= off <= 0x2_0000_0000 * h,
                    one > 0,
            ;
            assert(e + e <= (0x20_0000_0000 * h) * one) by (nonlinear_arith)
                requires
                    e == (0x2_0000_0000 * h) * one,
                    h > 0,
                    one > 0,
            ;
        }
        // What is aimed at lies in the range, so holding the speed to it takes it no farther.
        let bottom = (low * one) * one;
        let ceiling = (high * one) * one;
        assert(way == there * one - here * one) by (nonlinear_arith)
            requires
                way == (there - here) * one,
        ;
        assert(bottom <= here * one && here * one <= ceiling && bottom <= there * one && there * one
            <= ceiling) by (nonlinear_arith)
            requires
                bottom == (low * one) * one,
                ceiling == (high * one) * one,
                low * one <= here <= high * one,
                low * one <= there <= high * one,
                one > 0,
        ;
        assert((x.place() < low * one) == (y < bottom) && (x.place() > high * one) == (y > ceiling))
            by (nonlinear_arith)
            requires
                y == x.place() * one,
                bottom == (low * one) * one,
                ceiling == (high * one) * one,
                one > 0,
        ;
        assert(bottom <= goal && goal <= ceiling);
        assert(next == x.held(min, max));
    }
    lemma_whole_u32_is_nearest(next, high);
    let n = next.whole_u32() as int;
    assert(2 * (n + 1) * one == 2 * (n * one) + 2 * one && 2 * n * one == 2 * (n * one))
        by (nonlinear_arith);
}

/// What a ramp covers in the first `n` of a run of times.
pub open spec fn distance(ramp: Binary64, dts: Seq<Binary64>, n: nat) -> int
    decreases n,
{
    if n == 0 {
        0
    } else {
        distance(ramp, dts, (n - 1) as nat) + ramp@.place() * dts[n - 1]@.place()
    }
}

/// A constant demand is reached in the time that the ramp takes to cover the way to it, up with
/// `ramp_up` and down with `ramp_down`: `steps` are the governor before each of a run of steps
/// and after the last, in which the demand that prevails stays what it is, and what is left of
/// the way is what the ramp has not covered, to within a hair for each step.
pub proof fn law_a_constant_demand_is_reached(
    steps: Seq<Governor>,
    dts: Seq<Binary64>,
    target: int,
    n: nat,
    low: u32,
    high: u32,
)
    requires
        steps.len() == dts.len() + 1,
        n <= dts.len(),
        steps[0].ramp_up@.is_finite(),
        steps[0].ramp_down@.is_finite(),
        steps[0].ramp_up@.place() >= 0,
        steps[0].ramp_down@.place() >= 0,
        forall|i: int|
            0 <= i < steps.len() ==> {
                &&& (#[trigger] steps[i]).valid()
                &&& steps[i].min_rpm@ == Datum::whole(low as int)
                &&& steps[i].max_rpm@ == Datum::whole(high as int)
                &&& steps[i].ramp_up == steps[0].ramp_up
                &&& steps[i].ramp_down == steps[0].ramp_down
            },
        forall|i: int|
            0 <= i < dts.len() ==> {
                &&& (#[trigger] dts[i])@.is_finite()
                &&& dts[i]@.place() >= 0
                &&& steps[i].verdict(dts[i]@).0.place() == target
                &&& !steps[i].verdict(dts[i]@).1.is_urgent()
                &&& steps[i + 1].current@ == steps[i].speed_after(dts[i]@)
            },
    ensures
        ({
            let start = steps[0].current@.place();
            let here = steps[n as int].current@.place();
            let left = if start < target {
                (target - start) * unit() - distance(steps[0].ramp_up, dts, n)
            } else {
                (start - target) * unit() - distance(steps[0].ramp_down, dts, n)
            };
            let way = if start < target {
                (target - here) * unit()
            } else {
                (here - target) * unit()
            };
            &&& -(n * (hair() * unit())) <= way
            &&& way <= (if left > 0 {
                left
            } else {
                0
            }) + n * (hair() * unit())
        }),
    decreases n,
{
    let start = steps[0].current@.place();
    let one = unit() as int;
    let e = hair() * unit();
    lemma_pow2_pos(1074);
    assert(e >= 0) by (nonlinear_arith)
        requires
            e == hair() * unit(),
    ;
    assert((target - start) * one == -((start - target) * one)) by (nonlinear_arith);
    if n == 0 {
        assert(0 * e == 0);
        assert(start <= target ==> (target - start) * one >= 0) by (nonlinear_arith)
            requires
                one > 0,
        ;
        assert(start >= target ==> (start - target) * one >= 0) by (nonlinear_arith)
            requires
                one > 0,
        ;
    } else {
        let m = (n - 1) as nat;
        law_a_constant_demand_is_reached(steps, dts, target, m, low, high);
        let g = steps[m as int];
        let dt = dts[m as int];
        law_a_step_covers_what_the_ramp_allows(g, dt, low, high);
        assert(steps[m as int + 1].current@ == g.speed_after(dt@));
        let here = g.current@.place();
        let next = g.speed_after(dt@).place();
        assert(n * e == m * e + e) by (nonlinear_arith)
            requires
                n == m + 1,
        ;
        assert(m * e >= 0) by (nonlinear_arith)
            requires
                m >= 0,
                e >= 0,
        ;
        assert((target - here) * one == target * one - here * one && (here - target) * one == here
            * one - target * one && (target - next) * one == target * one - next * one && (next
            - target) * one == next * one - target * one) by (nonlinear_arith);
        assert((here < target) == (here * one < target * one)) by (nonlinear_arith)
            requires
                one > 0,
        ;
        let up = g.ramp_up@.place() * dt@.place();
        let down = g.ramp_down@.place() * dt@.place();
        assert(up >= 0 && down >= 0) by (nonlinear_arith)
            requires
                up == g.ramp_up@.place() * dt@.place(),
                down == g.ramp_down@.place() * dt@.place(),
                g.ramp_up@.place() >= 0,
                g.ramp_down@.place() >= 0,
                dt@.place() >= 0,
        ;
    }
}

/// The most that the integral term may add is its limit, or else the width of the range, and the
/// width where the limit is more.
pub proof fn law_the_ceiling_is_the_limit_or_the_width(cfg: SensorConfig, low: u32, high: u32)
    requires
        low <= high,
    ensures
        ({
            let ceiling = ceiling_of(cfg, Datum::whole(low as int), Datum::whole(high as int));
            let width = high - low;
            let most = match cfg.integral_limit_rpm {
                Some(limit) => if limit < width {
                    limit as int
                } else {
                    width
                },
                None => width,
            };
            ceiling.is_finite() && ceiling.proper() && ceiling.place() == most * unit()
        }),
{
    lemma_speeds(low, high);
    lemma_whole_order(high - low, 0);
    if let Some(limit) = cfg.integral_limit_rpm {
        lemma_whole_order(limit as int, high - low);
        lemma_whole_proper(limit as int);
        lemma_pow2_pos(1074);
    }
}

/// The error of a gain times a difference.
proof fn lemma_gain_error(gain: Datum, a: Datum, b: Datum)
    requires
        ordinary(gain),
        ordinary(a),
        ordinary(b),
        gain.place() >= 0,
    ensures
        ({
            let exact = gain.place() * (a.place() - b.place());
            let got = gain.times(a.minus(b));
            &&& got.is_finite()
            &&& magnitude(got.place() * unit() - exact) * SPAN <= 3 * magnitude(exact) + SPAN
                * unit()
            &&& magnitude(exact) <= pow2(1138) * pow2(1139)
        }),
{
    let one = unit() as int;
    let diff = a.place() - b.place();
    let g = gain.place();
    lemma_pow2_pos(1074);
    lemma2_to64();
    lemma_pow2_adds(1, 1138);
    lemma_pow2_adds(1138, 1140);
    lemma_pow2_adds(1204, 1074);
    lemma_pow2_adds(1, 1139);
    lemma_pow2_strictly_increases(1204, 2097);
    lemma_pow2_strictly_increases(1139, 2097);
    assert(b.negated().place() == -b.place());
    lemma_plus_error(a, b.negated());
    let e = a.minus(b).place();
    let d = magnitude(diff);
    assert(magnitude(e - diff) * SPAN <= d);
    assert(magnitude(e) <= 2 * d);
    let ge = g * e;
    let exact = g * diff;
    assert(magnitude(ge) <= g * (2 * d) && magnitude(exact) == g * d) by (nonlinear_arith)
        requires
            ge == g * e,
            exact == g * diff,
            g >= 0,
            -(2 * d) <= e <= 2 * d,
            d == magnitude(diff),
    ;
    assert(g * d <= pow2(1138) * pow2(1139)) by (nonlinear_arith)
        requires
            0 <= g <= pow2(1138),
            0 <= d <= pow2(1139),
    ;
    assert(g * (2 * d) <= pow2(1138) * pow2(1140)) by (nonlinear_arith)
        requires
            0 <= g <= pow2(1138),
            0 <= 2 * d <= pow2(1140),
    ;
    assert(pow2(1204) * one <= pow2(2097) * one) by (nonlinear_arith)
        requires
            pow2(1204) <= pow2(2097),
            one > 0,
    ;
    lemma_times_error(gain, a.minus(b));
    let k = gain.times(a.minus(b)).place();
    let x = magnitude(ge - exact);
    assert(ge - exact == g * (e - diff)) by (nonlinear_arith)
        requires
            ge == g * e,
            exact == g * diff,
    ;
    assert(x * SPAN <= g * d) by (nonlinear_arith)
        requires
            x == magnitude(ge - exact),
            ge - exact == g * (e - diff),
            -d <= (e - diff) * SPAN <= d,
            g >= 0,
    {
        let y = (e - diff) * SPAN;
        assert((ge - exact) * SPAN == g * y);
        assert(-(g * d) <= g * y <= g * d);
    }
    let y = magnitude(k * one - ge);
    assert(magnitude(ge) <= 2 * (g * d)) by (nonlinear_arith)
        requires
            magnitude(ge) <= g * (2 * d),
    ;
    assert(magnitude(k * one - exact) <= x + y);
    assert((x + y) * SPAN <= 3 * (g * d) + SPAN * one) by (nonlinear_arith)
        requires
            x * SPAN <= g * d,
            y * SPAN <= 2 * (g * d) + HALF_SPAN * one,
            one > 0,
    ;
    assert(magnitude(k * one - exact) * SPAN <= (x + y) * SPAN);
}

/// The error of what a poll adds to the integral.
proof fn lemma_push_error(cfg: SensorConfig, temp: Datum, dt: Datum)
    requires
        ordinary(cfg.ki@),
        ordinary(cfg.target@),
        ordinary(temp),
        cfg.ki@.place() >= 0,
        ordinary(dt),
        dt.place() >= 0,
    ensures
        ({
            let exact = (cfg.ki@.place() * (temp.place() - cfg.target@.place())) * dt.place();
            let got = push(cfg, temp, dt);
            let square = unit() * unit();
            &&& got.is_finite()
            &&& magnitude(got.place() * square - exact) * SPAN <= 5 * magnitude(exact) + SPAN * (
            0x4_0000_0000_0000_0000 * square)
        }),
{
    let one = unit() as int;
    let square = one * one;
    let gain = cfg.ki@.place() * (temp.place() - cfg.target@.place());
    let t = dt.place();
    let exact = gain * t;
    lemma_gain_error(cfg.ki@, temp, cfg.target@);
    lemma_scales();
    let held = cfg.ki@.times(temp.minus(cfg.target@));
    let k = held.place();
    let off = k * one - gain;
    assert(magnitude(off) <= magnitude(gain) + one);
    assert(magnitude(exact) == magnitude(gain) * t) by (nonlinear_arith)
        requires
            exact == gain * t,
            t >= 0,
    ;
    let w = magnitude(exact);
    // The product is not large.
    let kt = k * t;
    assert(magnitude(kt) * one <= 2 * w + t * one) by (nonlinear_arith)
        requires
            kt == k * t,
            off == k * one - gain,
            magnitude(off) <= magnitude(gain) + one,
            w == magnitude(gain) * t,
            t >= 0,
            one > 0,
    {
        assert(magnitude(k * one) <= 2 * magnitude(gain) + one);
        assert(magnitude(kt) * one == magnitude(k * one) * t);
    }
    assert(magnitude(kt) <= pow2(2097) * one) by {
        lemma2_to64();
        lemma_pow2_adds(1138, 1139);
        lemma_pow2_adds(2277, 1138);
        lemma_pow2_adds(1, 3415);
        lemma_pow2_adds(1138, 1074);
        lemma_pow2_adds(1, 3416);
        lemma_pow2_strictly_increases(2212, 3416);
        lemma_pow2_adds(2097, 1074);
        lemma_pow2_adds(3171, 1074);
        lemma_pow2_strictly_increases(3417, 4245);
        assert(w <= pow2(2277) * pow2(1138)) by (nonlinear_arith)
            requires
                w == magnitude(gain) * t,
                0 <= magnitude(gain) <= pow2(2277),
                0 <= t <= pow2(1138),
        ;
        assert(t * one <= pow2(1138) * pow2(1074)) by (nonlinear_arith)
            requires
                0 <= t <= pow2(1138),
                one == pow2(1074),
        ;
        assert(magnitude(kt) * one <= (pow2(2097) * one) * one);
        assert(magnitude(kt) <= pow2(2097) * one) by (nonlinear_arith)
            requires
                magnitude(kt) * one <= (pow2(2097) * one) * one,
                one > 0,
        ;
    }
    lemma_times_error(held, dt);
    let x = push(cfg, temp, dt).place();
    let near = x * one - kt;
    let first = near * one;
    let second = off * t;
    assert(x * square - exact == first + second) by (nonlinear_arith)
        requires
            square == one * one,
            near == x * one - kt,
            first == near * one,
            second == off * t,
            off == k * one - gain,
            kt == k * t,
            exact == gain * t,
    ;
    assert(magnitude(first) * SPAN <= 2 * w + t * one + HALF_SPAN * square) by (nonlinear_arith)
        requires
            first == near * one,
            magnitude(near) * SPAN <= magnitude(kt) + HALF_SPAN * one,
            magnitude(kt) * one <= 2 * w + t * one,
            square == one * one,
            one > 0,
    {
        assert(magnitude(first) == magnitude(near) * one);
        assert((magnitude(near) * SPAN) * one <= (magnitude(kt) + HALF_SPAN * one) * one);
    }
    assert(magnitude(second) * SPAN <= 3 * w + SPAN * (t * one)) by (nonlinear_arith)
        requires
            second == off * t,
            magnitude(off) * SPAN <= 3 * magnitude(gain) + SPAN * one,
            w == magnitude(gain) * t,
            t >= 0,
    {
        assert(magnitude(second) == magnitude(off) * t);
        assert((magnitude(off) * SPAN) * t <= (3 * magnitude(gain) + SPAN * one) * t);
    }
    assert(t <= 0x1_0000_0000_0000_0000 * one) by {
        lemma2_to64();
        lemma_pow2_adds(64, 1074);
    }
    assert(t * one <= 0x1_0000_0000_0000_0000 * square) by (nonlinear_arith)
        requires
            0 <= t <= 0x1_0000_0000_0000_0000 * one,
            square == one * one,
            one > 0,
    ;
    assert(square >= 0) by (nonlinear_arith)
        requires
            square == one * one,
    ;
    let total = x * square - exact;
    assert(magnitude(total) <= magnitude(first) + magnitude(second));
}

/// The integral adds up the error: below critical, `dt` seconds at a temperature add the integral
/// gain times the degrees over target times the seconds, and take as much away below target,
/// held between nothing and what the integral may add. Multiplied out, to within a hair, for
/// settings, readings and times of ordinary size.
pub proof fn law_the_integral_adds_up_the_error(s: Sensor, dt: Binary64, low: u32, high: u32)
    requires
        !s.failed,
        s.last_good is Some,
        s.cfg.critical@.is_finite(),
        s.last_good->0@.place() < s.cfg.critical@.place(),
        ordinary(s.last_good->0@),
        ordinary(s.cfg.target@),
        ordinary(s.cfg.ki@),
        s.cfg.ki@.place() >= 0,
        ordinary(dt@),
        dt@.place() >= 0,
        low <= high,
        s.integral@.is_finite(),
        0 <= s.integral@.place() <= (match s.cfg.integral_limit_rpm {
            Some(limit) => if limit < high - low {
                limit as int
            } else {
                high - low
            },
            None => high - low,
        }) * unit(),
    ensures
        ({
            let after = s.integral_after(
                dt@,
                Datum::whole(low as int),
                Datum::whole(high as int),
            );
            let square = unit() * unit();
            let most = match s.cfg.integral_limit_rpm {
                Some(limit) => if limit < high - low {
                    limit as int
                } else {
                    high - low
                },
                None => high - low,
            } * unit();
            let degrees = s.last_good->0@.place() - s.cfg.target@.place();
            let sum = s.integral@.place() * square + (s.cfg.ki@.place() * degrees) * dt@.place();
            let held = if sum < 0 {
                0
            } else if sum > most * square {
                most * square
            } else {
                sum
            };
            &&& after.is_finite()
            &&& 0 <= after.place() <= most
            &&& magnitude(after.place() * square - held) <= hair() * square
        }),
{
    let min = Datum::whole(low as int);
    let max = Datum::whole(high as int);
    let cfg = s.cfg;
    let temp = s.last_good->0@;
    let one = unit() as int;
    let square = one * one;
    let h = bit() as int;
    let i = s.integral@.place();
    let ceiling = ceiling_of(cfg, min, max);
    let most = ceiling.place();
    let exact = (cfg.ki@.place() * (temp.place() - cfg.target@.place())) * dt@.place();
    let sum = i * square + exact;
    lemma_scales();
    lemma_whole_order(0, 0);
    law_the_ceiling_is_the_limit_or_the_width(cfg, low, high);
    let rpm = match cfg.integral_limit_rpm {
        Some(limit) => if limit < high - low {
            limit as int
        } else {
            high - low
        },
        None => high - low,
    };
    assert(most <= 0xffff_ffff * one) by (nonlinear_arith)
        requires
            most == rpm * one,
            rpm <= 0xffff_ffff,
            one > 0,
    ;
    assert(square > 0) by (nonlinear_arith)
        requires
            square == one * one,
            one > 0,
    ;
    lemma_push_error(cfg, temp, dt@);
    let got = push(cfg, temp, dt@);
    let x = got.place();
    let moved = s.integral@.plus(got);
    let after = s.integral_after(dt@, min, max);
    assert(after == moved.held(Datum::whole(0), ceiling));
    let w = magnitude(exact);
    let off = x * square - exact;
    let limit = (0x2_0000_0000 * one) * square;
    assert(bit() >= 0x4_0000_0000_0000_0000) by {
        lemma2_to64();
        lemma_pow2_adds(2, 64);
        lemma_pow2_strictly_increases(66, 1021);
    }
    assert(0 <= i * square && i * square <= most * square) by (nonlinear_arith)
        requires
            0 <= i <= most,
            square > 0,
    ;
    assert(0 <= most * square) by (nonlinear_arith)
        requires
            0 <= most,
            square > 0,
    ;
    if w <= limit {
        assert(magnitude(off) <= (0xc_0000_0000 * h) * square) by (nonlinear_arith)
            requires
                magnitude(off) * SPAN <= 5 * w + SPAN * (0x4_0000_0000_0000_0000 * square),
                w <= (0x2_0000_0000 * one) * square,
                one == SPAN * h,
                h >= 0x4_0000_0000_0000_0000,
                square > 0,
        ;
        assert(magnitude(x) <= 0x3_0000_0000 * one) by (nonlinear_arith)
            requires
                off == x * square - exact,
                magnitude(off) <= (0xc_0000_0000 * h) * square,
                magnitude(exact) <= (0x2_0000_0000 * one) * square,
                one == SPAN * h,
                square > 0,
                h > 0,
        {
            assert((0xc_0000_0000 * h) <= 0x1_0000_0000 * one);
            assert(magnitude(x * square) <= (0x3_0000_0000 * one) * square);
            assert(magnitude(x * square) == magnitude(x) * square);
        }
        assert(0x4_0000_0000 * one <= pow2(2097)) by {
            lemma2_to64_rest();
            lemma_pow2_adds(34, 1074);
            lemma_pow2_strictly_increases(1108, 2097);
        }
        lemma_plus_error(s.integral@, got);
        let slip = moved.place() - (i + x);
        assert(magnitude(slip) <= 0x4_0000_0000 * h);
        let y = moved.place() * square;
        assert(y - sum == off + slip * square) by (nonlinear_arith)
            requires
                y == moved.place() * square,
                slip == moved.place() - (i + x),
                sum == i * square + exact,
                off == x * square - exact,
        ;
        assert(magnitude(slip * square) <= (0x4_0000_0000 * h) * square) by (nonlinear_arith)
            requires
                magnitude(slip) <= 0x4_0000_0000 * h,
                square > 0,
        ;
        assert((0xc_0000_0000 * h) * square + (0x4_0000_0000 * h) * square <= (0x20_0000_0000 * h)
            * square) by (nonlinear_arith)
            requires
                h > 0,
                square > 0,
        ;
        assert(magnitude(y - sum) <= hair() * square);
        assert((moved.place() < 0) == (y < 0) && (moved.place() > most) == (y > most * square))
            by (nonlinear_arith)
            requires
                y == moved.place() * square,
                square > 0,
        ;
        assert(0 * square == 0);
    } else {
        let enough = 0xffff_ffff * one;
        lemma_grains(0xf_ffff_fff0_0000);
        lemma_grains(0);
        assert(0xf_ffff_fff0_0000 * grain() == enough);
        assert(0 * grain() == 0);
        assert(exact > 0 ==> x >= enough) by (nonlinear_arith)
            requires
                off == x * square - exact,
                magnitude(off) * SPAN <= 5 * w + SPAN * (0x4_0000_0000_0000_0000 * square),
                w == magnitude(exact),
                w > (0x2_0000_0000 * one) * square,
                enough == 0xffff_ffff * one,
                one >= 0x4_0000_0000_0000_0000,
                square > 0,
        {
            if exact > 0 {
                assert((x * square) * SPAN >= w * (SPAN - 5) - SPAN * (0x4_0000_0000_0000_0000
                    * square));
                assert(w * (SPAN - 5) >= ((0x2_0000_0000 * one) * square) * (SPAN - 5));
                assert((x * square) * SPAN >= (enough * square) * SPAN);
                assert(x * square >= enough * square);
            }
        }
        assert(exact < 0 ==> x <= -enough) by (nonlinear_arith)
            requires
                off == x * square - exact,
                magnitude(off) * SPAN <= 5 * w + SPAN * (0x4_0000_0000_0000_0000 * square),
                w == magnitude(exact),
                w > (0x2_0000_0000 * one) * square,
                enough == 0xffff_ffff * one,
                one >= 0x4_0000_0000_0000_0000,
                square > 0,
        {
            if exact < 0 {
                assert((x * square) * SPAN <= -(w * (SPAN - 5)) + SPAN * (0x4_0000_0000_0000_0000
                    * square));
                assert(w * (SPAN - 5) >= ((0x2_0000_0000 * one) * square) * (SPAN - 5));
                assert((x * square) * SPAN <= -((enough * square) * SPAN));
                assert(x * square <= -(enough * square));
            }
        }
        assert(most * square <= limit) by (nonlinear_arith)
            requires
                most <= 0xffff_ffff * one,
                limit == (0x2_0000_0000 * one) * square,
                square > 0,
                one > 0,
        ;
        if exact > 0 {
            lemma_plus_at_least(s.integral@, got, 0xf_ffff_fff0_0000);
        } else {
            lemma_plus_at_most(s.integral@, got, 0);
            assert(after.place() * square == 0) by (nonlinear_arith)
                requires
                    after.place() == 0,
            ;
        }
    }
}

/// A sensor that has failed or never read, and one whose last good reading lies at or above its
/// critical temperature, demand the maximum, each for its own reason and under its own key, and
/// leave the integral alone, whatever else holds of them.
pub proof fn law_trouble_demands_the_maximum(s: Sensor, dt: Datum, min: Datum, max: Datum)
    requires
        s.cfg.critical@ is Finite,
    ensures
        s.failed || s.last_good is None ==> {
            &&& s.demanded(dt, min, max) == (max, Reason::Failed(s.cfg.key))
            &&& s.integral_after(dt, min, max) == s.integral@
        },
        !s.failed && s.last_good is Some && !(s.last_good->0@ is Nan)
            && s.cfg.critical@.place() <= s.last_good->0@.place() ==> {
            &&& s.demanded(dt, min, max) == (max, Reason::Critical(s.cfg.key))
            &&& s.integral_after(dt, min, max) == s.integral@
        },
        !s.failed && s.last_good is Some && s.last_good->0@.place() < s.cfg.critical@.place()
            ==> s.demanded(dt, min, max).1 is Idle || s.demanded(dt, min, max).1
            == Reason::Steering(s.cfg.key),
{
}

/// What the controller asks for, against what it should: to within a hair, or else so far above
/// or below any speed that no more need be known.
proof fn lemma_asked(low: u32, p: Datum, after: Datum, exact: int)
    requires
        p.is_finite(),
        magnitude(p.place() * unit() - exact) * SPAN <= 3 * magnitude(exact) + SPAN * unit(),
        magnitude(exact) <= pow2(1138) * pow2(1139),
        after.is_finite(),
        0 <= after.place() <= 0xffff_ffff * unit(),
    ensures
        ({
            let c = Datum::whole(low as int).plus(p).plus(after);
            let asked = (low * unit() + after.place()) * unit() + exact;
            let enough = 0xffff_ffff * unit();
            &&& !(c is Nan)
            &&& ({
                ||| magnitude(c.place() * unit() - asked) <= hair() * unit()
                ||| c.place() >= enough && asked >= enough * unit()
                ||| c.place() <= 0 && asked <= 0
            })
        }),
{
    let min = Datum::whole(low as int);
    let one = unit() as int;
    let h = bit() as int;
    let i = after.place();
    let x = p.place();
    let off = x * one - exact;
    let w = magnitude(exact);
    let a = min.plus(p);
    let c = a.plus(after);
    let asked = (low * one + i) * one + exact;
    lemma_scales();
    lemma_whole_order(low as int, 0);
    assert(0 <= low * one && low * one <= 0xffff_ffff * one) by (nonlinear_arith)
        requires
            0 <= low <= 0xffff_ffff,
            one > 0,
    ;
    assert((low * one + i) * one == (low * one) * one + i * one) by (nonlinear_arith);
    assert(0 <= i * one && (low * one) * one >= 0 && i * one <= (0xffff_ffff * one) * one && (low
        * one) * one <= (0xffff_ffff * one) * one) by (nonlinear_arith)
        requires
            0 <= i <= 0xffff_ffff * one,
            0 <= low * one <= 0xffff_ffff * one,
            one > 0,
    ;
    let limit = (0x4_0000_0000 * one) * one;
    assert(0x10_0000_0000 * one <= pow2(2097)) by {
        lemma2_to64_rest();
        lemma_pow2_adds(36, 1074);
        lemma_pow2_strictly_increases(1110, 2097);
    }
    if w <= limit {
        assert(magnitude(off) <= (0x10_0000_0000 * h) * one) by (nonlinear_arith)
            requires
                magnitude(off) * SPAN <= 3 * w + SPAN * one,
                w <= (0x4_0000_0000 * one) * one,
                one == SPAN * h,
                h >= 1,
        ;
        assert(magnitude(x) <= 0x5_0000_0000 * one) by (nonlinear_arith)
            requires
                off == x * one - exact,
                magnitude(off) <= (0x10_0000_0000 * h) * one,
                magnitude(exact) <= (0x4_0000_0000 * one) * one,
                one == SPAN * h,
                h >= 1,
        {
            assert(0x10_0000_0000 * h <= 0x1_0000_0000 * one);
            assert(magnitude(x * one) <= (0x5_0000_0000 * one) * one);
            assert(magnitude(x * one) == magnitude(x) * one);
        }
        lemma_plus_error(min, p);
        let slip1 = a.place() - (low * one + x);
        assert(magnitude(slip1) <= 0x6_0000_0000 * h);
        lemma_plus_error(a, after);
        let slip2 = c.place() - (a.place() + i);
        assert(magnitude(slip2) <= 0x8_0000_0000 * h);
        let y = c.place() * one;
        let slip = slip1 + slip2;
        assert(y - asked == off + slip * one) by (nonlinear_arith)
            requires
                y == c.place() * one,
                slip == c.place() - low * one - x - i,
                off == x * one - exact,
                asked == (low * one + i) * one + exact,
        ;
        assert(magnitude(slip * one) <= (0xe_0000_0000 * h) * one) by (nonlinear_arith)
            requires
                magnitude(slip) <= 0xe_0000_0000 * h,
                one > 0,
        ;
        assert((0x10_0000_0000 * h) * one + (0xe_0000_0000 * h) * one <= (0x20_0000_0000 * h) * one)
            by (nonlinear_arith)
            requires
                h > 0,
                one > 0,
        ;
        assert(magnitude(y - asked) <= hair() * one);
    } else {
        let enough = 0xffff_ffff * one;
        let much = 0x3_ffff_ffff * one;
        lemma_grains(0xf_ffff_fff0_0000);
        assert(0xf_ffff_fff0_0000 * grain() == enough);
        assert(exact > 0 ==> x >= much) by (nonlinear_arith)
            requires
                off == x * one - exact,
                magnitude(off) * SPAN <= 3 * w + SPAN * one,
                w == magnitude(exact),
                w > (0x4_0000_0000 * one) * one,
                much == 0x3_ffff_ffff * one,
                one >= 0x1_0000,
        {
            if exact > 0 {
                assert((x * one) * SPAN >= w * (SPAN - 3) - SPAN * one);
                assert(w * (SPAN - 3) >= ((0x4_0000_0000 * one) * one) * (SPAN - 3));
                assert(one * one >= 0x1_0000 * one);
                assert((x * one) * SPAN >= (much * one) * SPAN);
                assert(x * one >= much * one);
            }
        }
        assert(exact < 0 ==> x <= -much) by (nonlinear_arith)
            requires
                off == x * one - exact,
                magnitude(off) * SPAN <= 3 * w + SPAN * one,
                w == magnitude(exact),
                w > (0x4_0000_0000 * one) * one,
                much == 0x3_ffff_ffff * one,
                one >= 0x1_0000,
        {
            if exact < 0 {
                assert((x * one) * SPAN <= -(w * (SPAN - 3)) + SPAN * one);
                assert(w * (SPAN - 3) >= ((0x4_0000_0000 * one) * one) * (SPAN - 3));
                assert(one * one >= 0x1_0000 * one);
                assert((x * one) * SPAN <= -((much * one) * SPAN));
                assert(x * one <= -(much * one));
            }
        }
        // The proportional term is finite, and so are the sums with it.
        assert(magnitude(x) <= pow2(1205)) by {
            lemma2_to64();
            lemma_pow2_adds(1138, 1139);
            lemma_pow2_adds(1, 2277);
            lemma_pow2_adds(1, 2278);
            lemma_pow2_strictly_increases(1074, 2278);
            lemma_pow2_adds(1205, 1074);
            assert(magnitude(x * one) <= 2 * w + one);
            assert(magnitude(x * one) == magnitude(x) * one) by (nonlinear_arith)
                requires
                    one > 0,
            ;
            assert(magnitude(x) <= pow2(1205)) by (nonlinear_arith)
                requires
                    magnitude(x) * one <= pow2(1205) * one,
                    one > 0,
            ;
        }
        assert(pow2(1205) + 0x2_0000_0000 * one <= pow2(1206) && pow2(1207) <= pow2(2097)) by {
            lemma2_to64();
            lemma2_to64_rest();
            lemma_pow2_adds(33, 1074);
            lemma_pow2_strictly_increases(1107, 1205);
            lemma_pow2_adds(1, 1205);
            lemma_pow2_strictly_increases(1207, 2097);
        }
        lemma_pow2_strictly_increases(1206, 1207);
        lemma_plus_error(min, p);
        if exact > 0 {
            lemma_plus_at_least(min, p, 0xf_ffff_fff0_0000);
            lemma_plus_at_least(a, after, 0xf_ffff_fff0_0000);
        } else {
            let b = low * one + x;
            assert(magnitude(a.place() - b) * SPAN <= magnitude(b));
            assert(b <= -(0x2_ffff_ffff * one));
            assert(a.place() <= -enough);
            lemma_grains(0);
            assert(0 * grain() == 0);
            lemma_plus_at_most(a, after, 0);
        }
        assert(2 * ((0xffff_ffff * one) * one) <= limit && enough * one <= limit)
            by (nonlinear_arith)
            requires
                limit == (0x4_0000_0000 * one) * one,
                enough == 0xffff_ffff * one,
                one > 0,
        ;
    }
}

/// Below critical a sensor demands what its controller asks for: the floor, the proportional gain
/// times the degrees over target, and the integral; or what its ramp asks for where that is more;
/// held to the speed range. Multiplied out, to within a hair, for settings, readings and times of
/// ordinary size. It is idle where that is the floor, and steers otherwise.
pub proof fn law_a_demand_is_that_of_the_controller_or_the_ramp(
    s: Sensor,
    dt: Binary64,
    low: u32,
    high: u32,
)
    requires
        settings_ordered(s.cfg),
        !s.failed,
        s.last_good is Some,
        s.last_good->0@.place() < s.cfg.critical@.place(),
        s.cfg.critical@.place() - s.cfg.baseline_from@.place() <= pow2(2097),
        ordinary(s.last_good->0@),
        ordinary(s.cfg.target@),
        ordinary(s.cfg.kp@),
        ordinary(s.cfg.ki@),
        ordinary(dt@),
        dt@.place() >= 0,
        low < high,
        s.integral@.is_finite(),
        0 <= s.integral@.place() <= (match s.cfg.integral_limit_rpm {
            Some(limit) => if limit < high - low {
                limit as int
            } else {
                high - low
            },
            None => high - low,
        }) * unit(),
    ensures
        ({
            let min = Datum::whole(low as int);
            let max = Datum::whole(high as int);
            let temp = s.last_good->0@;
            let (rpm, reason) = s.demanded(dt@, min, max);
            let degrees = temp.place() - s.cfg.target@.place();
            let integral = s.integral_after(dt@, min, max).place();
            let asked = (low * unit() + integral) * unit() + s.cfg.kp@.place() * degrees;
            let ramp = baseline_of(s.cfg, temp, min, max).place() * unit();
            let more = if asked > ramp {
                asked
            } else {
                ramp
            };
            let square = unit() * unit();
            let held = if more < low * square {
                low * square
            } else if more > high * square {
                high * square
            } else {
                more
            };
            &&& rpm.is_finite()
            &&& magnitude(rpm.place() * unit() - held) <= hair() * unit()
            &&& reason == (if rpm.place() == low * unit() {
                Reason::Idle
            } else {
                Reason::Steering(s.cfg.key)
            })
        }),
{
    let min = Datum::whole(low as int);
    let max = Datum::whole(high as int);
    let cfg = s.cfg;
    let temp = s.last_good->0@;
    let one = unit() as int;
    let square = one * one;
    let h = bit() as int;
    lemma_scales();
    lemma_whole_order(low as int, high as int);
    lemma_whole_order(0, 0);
    lemma_speeds(low, high);
    lemma_proper(s.last_good->0);
    assert(cfg.baseline_from@.negated().place() == -cfg.baseline_from@.place());
    lemma_plus_error(cfg.critical@, cfg.baseline_from@.negated());
    lemma_minus_sign(cfg.critical@, cfg.baseline_from@);
    lemma_minus_sign(temp, cfg.baseline_from@);
    law_the_ramp_rises_with_temperature(cfg, temp, temp, low, high);
    law_the_integral_adds_up_the_error(s, dt, low, high);
    law_a_demand_lies_between_the_ramp_and_the_cap(s, dt, low, high);
    let after = s.integral_after(dt@, min, max);
    let i = after.place();
    assert(0 <= low * one && high * one <= 0xffff_ffff * one) by (nonlinear_arith)
        requires
            0 <= low,
            high <= 0xffff_ffff,
            one > 0,
    ;
    assert(0 <= i <= 0xffff_ffff * one) by {
        let rpm = match cfg.integral_limit_rpm {
            Some(limit) => if limit < high - low {
                limit as int
            } else {
                high - low
            },
            None => high - low,
        };
        assert(rpm * one <= 0xffff_ffff * one) by (nonlinear_arith)
            requires
                rpm <= 0xffff_ffff,
                one > 0,
        ;
    }
    let ramp = baseline_of(cfg, temp, min, max);
    let degrees = temp.place() - cfg.target@.place();
    let exact = cfg.kp@.place() * degrees;
    let asked = (low * one + i) * one + exact;
    lemma_gain_error(cfg.kp@, temp, cfg.target@);
    let p = cfg.kp@.times(temp.minus(cfg.target@));
    let x = p.place();
    let a = min.plus(p);
    let c = a.plus(after);
    let rpm = s.demanded(dt@, min, max).0;
    assert(rpm == c.larger(ramp).held(min, max));
    assert(low * square == (low * one) * one && high * square == (high * one) * one)
        by (nonlinear_arith)
        requires
            square == one * one,
    ;
    assert((low * one + i) * one == (low * one) * one + i * one) by (nonlinear_arith);
    assert(0 <= i * one && (low * one) * one >= 0 && (high * one) * one <= (0xffff_ffff * one) * one
        && i * one <= (0xffff_ffff * one) * one && (low * one) * one <= (0xffff_ffff * one) * one)
        by (nonlinear_arith)
        requires
            0 <= i <= 0xffff_ffff * one,
            0 <= low * one <= 0xffff_ffff * one,
            high * one <= 0xffff_ffff * one,
            one > 0,
    ;
    let r = ramp.place() * one;
    assert((low * one) * one <= r && r <= (high * one) * one) by (nonlinear_arith)
        requires
            r == ramp.place() * one,
            low * one <= ramp.place() <= high * one,
            one > 0,
    ;
    lemma_asked(low, p, after, exact);
    let y = c.place() * one;
    assert((c.place() < ramp.place()) == (y < r) && (c.place() < low * one) == (y < (low * one)
        * one) && (c.place() > high * one) == (y > (high * one) * one)) by (nonlinear_arith)
        requires
            y == c.place() * one,
            r == ramp.place() * one,
            one > 0,
    ;
    assert(hair() * one >= 0);
}

} // verus!
