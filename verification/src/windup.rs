//! How the integral of a sensor winds up and unwinds over many polls.
//!
//! What a poll adds is counted in grains of two to the power -20 of an rpm. Less than a grain may
//! be absorbed by rounding, so it counts as nothing.
use crate::binary64::Binary64;
use crate::config::SensorConfig;
use crate::control::{
    baseline_of, ceiling_of, integral_of, lemma_between_is_finite, lemma_ceiling, Sensor,
};
use crate::datum::{lemma_whole_order, magnitude, unit, Datum};
use crate::order::{
    grain, lemma_grains, lemma_minus_sign, lemma_nothing_times, lemma_plus_at_least,
    lemma_plus_at_most, lemma_plus_commutes, lemma_plus_monotone, lemma_plus_nothing,
    lemma_plus_number, lemma_proper, lemma_times_monotone, lemma_whole_proper,
};
use crate::policy::{
    law_the_integral_cannot_wind_up, law_the_integral_follows_the_error,
    law_the_ramp_rises_with_temperature, lemma_integral_finite, lemma_push_sign, lemma_speeds,
    lemma_times_commutes, push, ramp_computes, settings_ordered,
};
use vstd::arithmetic::div_mod::lemma_fundamental_div_mod;
use vstd::prelude::*;

verus! {

/// The speed that a sensor demands, below critical, with this integral.
pub open spec fn speed_with(
    cfg: SensorConfig,
    integral: Datum,
    temp: Datum,
    min: Datum,
    max: Datum,
) -> Datum {
    min.plus(cfg.kp@.times(temp.minus(cfg.target@))).plus(integral).larger(
        baseline_of(cfg, temp, min, max),
    ).held(min, max)
}

/// A sensor below critical demands the speed that goes with the integral it has after the poll.
pub proof fn law_a_demand_goes_by_the_new_integral(s: Sensor, dt: Datum, min: Datum, max: Datum)
    requires
        !s.fails_safe(),
        !s.is_critical(),
    ensures
        s.demanded(dt, min, max).0 == speed_with(
            s.cfg,
            s.integral_after(dt, min, max),
            s.last_good->0@,
            min,
            max,
        ),
        s.integral_after(dt, min, max) == integral_of(
            s.cfg,
            s.integral@,
            s.last_good->0@,
            dt,
            min,
            max,
        ),
{
}

/// The integral after a run of polls, so many seconds apart, at one temperature.
pub open spec fn integral_run(
    cfg: SensorConfig,
    integral: Datum,
    temp: Datum,
    dts: Seq<Datum>,
    min: Datum,
    max: Datum,
) -> Datum
    decreases dts.len(),
{
    if dts.len() == 0 {
        integral
    } else {
        integral_of(
            cfg,
            integral_run(cfg, integral, temp, dts.drop_last(), min, max),
            temp,
            dts.last(),
            min,
            max,
        )
    }
}

/// The whole grains in the size of a number.
pub open spec fn grains(x: Datum) -> int {
    magnitude(x.place()) / (grain() as int)
}

/// The grains that a run of polls adds, or takes away below target.
pub open spec fn pushed(cfg: SensorConfig, temp: Datum, dts: Seq<Datum>) -> int
    decreases dts.len(),
{
    if dts.len() == 0 {
        0
    } else {
        pushed(cfg, temp, dts.drop_last()) + grains(push(cfg, temp, dts.last()))
    }
}

/// The most that the integral may add, in rpm: its limit, and no more than the range.
pub open spec fn cap(cfg: SensorConfig, low: u32, high: u32) -> int {
    match cfg.integral_limit_rpm {
        Some(limit) => if limit < high - low {
            limit as int
        } else {
            high - low
        },
        None => high - low,
    }
}

/// That the polls of a run lie a finite time apart that is not negative, and each adds a number.
pub open spec fn run_computes(cfg: SensorConfig, temp: Datum, dts: Seq<Datum>) -> bool {
    forall|k: int|
        0 <= k < dts.len() ==> (#[trigger] dts[k]).is_finite() && Datum::whole(0).le(dts[k]) && !(
        push(cfg, temp, dts[k]) is Nan)
}

/// All but the last of such polls are such polls.
proof fn lemma_rest_computes(cfg: SensorConfig, temp: Datum, dts: Seq<Datum>)
    requires
        run_computes(cfg, temp, dts),
        dts.len() > 0,
    ensures
        run_computes(cfg, temp, dts.drop_last()),
{
    let rest = dts.drop_last();
    assert forall|k: int| 0 <= k < rest.len() implies (#[trigger] rest[k]).is_finite()
        && Datum::whole(0).le(rest[k]) && !(push(cfg, temp, rest[k]) is Nan) by {
        assert(rest[k] == dts[k]);
    }
}

/// The ceiling of the integral is the cap.
proof fn lemma_cap(cfg: SensorConfig, low: u32, high: u32)
    requires
        low <= high,
    ensures
        ({
            let ceiling = ceiling_of(cfg, Datum::whole(low as int), Datum::whole(high as int));
            &&& ceiling.is_finite()
            &&& ceiling.proper()
            &&& ceiling.place() == cap(cfg, low, high) * unit()
            &&& ceiling.place() == (cap(cfg, low, high) * 0x10_0000) * grain()
            &&& 0 <= cap(cfg, low, high) <= 0xffff_ffff
        }),
{
    let min = Datum::whole(low as int);
    let max = Datum::whole(high as int);
    lemma_speeds(low, high);
    lemma_ceiling(cfg, min, max);
    lemma_whole_order(0, 0);
    lemma_whole_proper(0);
    lemma_between_is_finite(ceiling_of(cfg, min, max), Datum::whole(0), max.minus(min));
    lemma_grains(0);
    let c = cap(cfg, low, high);
    lemma_whole_order(high - low, high - low);
    if let Some(limit) = cfg.integral_limit_rpm {
        lemma_whole_order(limit as int, high - low);
    }
    assert((c * 0x10_0000) * grain() == c * unit()) by (nonlinear_arith)
        requires
            unit() == 0x10_0000 * grain(),
    ;
}

/// The size of a number is at least its grains.
proof fn lemma_whole_grains(x: Datum)
    ensures
        grains(x) >= 0,
        grains(x) * grain() <= magnitude(x.place()),
{
    lemma_grains(0);
    let g = grain() as int;
    let m = magnitude(x.place());
    lemma_fundamental_div_mod(m, g);
    assert(grains(x) * g == g * grains(x)) by (nonlinear_arith);
    assert(grains(x) >= 0) by (nonlinear_arith)
        requires
            m == g * grains(x) + m % g,
            0 <= m % g < g,
            m >= 0,
            g > 0,
    ;
}

/// A run leaves the integral a number in its bounds.
proof fn lemma_run_bounded(
    cfg: SensorConfig,
    integral: Datum,
    temp: Datum,
    dts: Seq<Datum>,
    low: u32,
    high: u32,
)
    requires
        settings_ordered(cfg),
        temp.is_finite(),
        run_computes(cfg, temp, dts),
        integral.is_finite(),
        integral.proper(),
        Datum::whole(0).le(integral),
        integral.le(ceiling_of(cfg, Datum::whole(low as int), Datum::whole(high as int))),
        low <= high,
    ensures
        ({
            let min = Datum::whole(low as int);
            let max = Datum::whole(high as int);
            let r = integral_run(cfg, integral, temp, dts, min, max);
            &&& r.is_finite()
            &&& r.proper()
            &&& Datum::whole(0).le(r)
            &&& r.le(ceiling_of(cfg, min, max))
        }),
        pushed(cfg, temp, dts) >= 0,
    decreases dts.len(),
{
    if dts.len() > 0 {
        let min = Datum::whole(low as int);
        let max = Datum::whole(high as int);
        let rest = dts.drop_last();
        assert(dts.last() == dts[dts.len() - 1]);
        lemma_rest_computes(cfg, temp, dts);
        lemma_run_bounded(cfg, integral, temp, rest, low, high);
        lemma_push_sign(cfg, temp, dts.last());
        lemma_whole_grains(push(cfg, temp, dts.last()));
        lemma_integral_finite(
            cfg,
            integral_run(cfg, integral, temp, rest, min, max),
            temp,
            dts.last(),
            low,
            high,
        );
    }
}

/// Above target the integral is at least what was added to it, or at its ceiling.
proof fn lemma_winds_up(
    cfg: SensorConfig,
    integral: Datum,
    temp: Datum,
    dts: Seq<Datum>,
    low: u32,
    high: u32,
)
    requires
        settings_ordered(cfg),
        temp.is_finite(),
        cfg.target@.le(temp),
        run_computes(cfg, temp, dts),
        integral.is_finite(),
        integral.proper(),
        Datum::whole(0).le(integral),
        integral.le(ceiling_of(cfg, Datum::whole(low as int), Datum::whole(high as int))),
        low <= high,
    ensures
        ({
            let min = Datum::whole(low as int);
            let max = Datum::whole(high as int);
            let r = integral_run(cfg, integral, temp, dts, min, max);
            let full = cap(cfg, low, high) * 0x10_0000;
            let added = pushed(cfg, temp, dts);
            r.place() >= (if added < full {
                added
            } else {
                full
            }) * grain()
        }),
    decreases dts.len(),
{
    let min = Datum::whole(low as int);
    let max = Datum::whole(high as int);
    let full = cap(cfg, low, high) * 0x10_0000;
    lemma_run_bounded(cfg, integral, temp, dts, low, high);
    lemma_whole_order(0, 0);
    lemma_cap(cfg, low, high);
    let g = grain() as int;
    if dts.len() == 0 {
        assert(0 * g == 0) by (nonlinear_arith);
    } else {
        let rest = dts.drop_last();
        assert(dts.last() == dts[dts.len() - 1]);
        lemma_rest_computes(cfg, temp, dts);
        lemma_winds_up(cfg, integral, temp, rest, low, high);
        lemma_run_bounded(cfg, integral, temp, rest, low, high);
        let before = integral_run(cfg, integral, temp, rest, min, max);
        let x = push(cfg, temp, dts.last());
        lemma_push_sign(cfg, temp, dts.last());
        lemma_whole_grains(x);
        lemma_grains(0);
        let had = pushed(cfg, temp, rest);
        let a = if had < full {
            had
        } else {
            full
        };
        let b = if grains(x) < full {
            grains(x)
        } else {
            full
        };
        let added = pushed(cfg, temp, dts);
        let c = if added < full {
            added
        } else {
            full
        };
        assert(a * g + b * g == (a + b) * g) by (nonlinear_arith);
        assert(b * g <= grains(x) * g) by (nonlinear_arith)
            requires
                b <= grains(x),
                g >= 0,
        ;
        lemma_plus_at_least(before, x, a + b);
        assert(c * g <= (a + b) * g && c * g <= full * g) by (nonlinear_arith)
            requires
                c <= a + b,
                c <= full,
                g >= 0,
        ;
    }
}

/// Below target the integral is at most its ceiling less what was taken away, or nothing.
proof fn lemma_unwinds(
    cfg: SensorConfig,
    integral: Datum,
    temp: Datum,
    dts: Seq<Datum>,
    low: u32,
    high: u32,
)
    requires
        settings_ordered(cfg),
        temp.is_finite(),
        temp.le(cfg.target@),
        run_computes(cfg, temp, dts),
        integral.is_finite(),
        integral.proper(),
        Datum::whole(0).le(integral),
        integral.le(ceiling_of(cfg, Datum::whole(low as int), Datum::whole(high as int))),
        low <= high,
    ensures
        ({
            let min = Datum::whole(low as int);
            let max = Datum::whole(high as int);
            let r = integral_run(cfg, integral, temp, dts, min, max);
            let full = cap(cfg, low, high) * 0x10_0000;
            let taken = pushed(cfg, temp, dts);
            r.place() <= (if taken < full {
                full - taken
            } else {
                0
            }) * grain()
        }),
    decreases dts.len(),
{
    let min = Datum::whole(low as int);
    let max = Datum::whole(high as int);
    let full = cap(cfg, low, high) * 0x10_0000;
    lemma_run_bounded(cfg, integral, temp, dts, low, high);
    lemma_whole_order(0, 0);
    lemma_cap(cfg, low, high);
    let g = grain() as int;
    assert(0 * g == 0) by (nonlinear_arith);
    if dts.len() > 0 {
        let rest = dts.drop_last();
        assert(dts.last() == dts[dts.len() - 1]);
        lemma_rest_computes(cfg, temp, dts);
        lemma_unwinds(cfg, integral, temp, rest, low, high);
        lemma_run_bounded(cfg, integral, temp, rest, low, high);
        let before = integral_run(cfg, integral, temp, rest, min, max);
        let x = push(cfg, temp, dts.last());
        lemma_push_sign(cfg, temp, dts.last());
        lemma_whole_grains(x);
        let had = pushed(cfg, temp, rest);
        let a = if had < full {
            full - had
        } else {
            0
        };
        let b = grains(x);
        let c = if a < b {
            0
        } else {
            a - b
        };
        assert(a * g - b * g <= c * g) by (nonlinear_arith)
            requires
                a - b <= c,
                g >= 0,
        ;
        lemma_plus_at_most(before, x, c);
        let taken = pushed(cfg, temp, dts);
        let d = if taken < full {
            full - taken
        } else {
            0
        };
        assert(c == d);
    }
}

/// With an integral that lies in the same place a sensor demands the same speed.
proof fn lemma_speed_by_place(
    cfg: SensorConfig,
    i: Datum,
    j: Datum,
    temp: Datum,
    min: Datum,
    max: Datum,
)
    requires
        i.is_finite(),
        j.is_finite(),
        i.place() == j.place(),
    ensures
        speed_with(cfg, i, temp, min, max).place() == speed_with(cfg, j, temp, min, max).place(),
{
}

/// With more of an integral a sensor demands no less.
proof fn lemma_speed_rises(
    cfg: SensorConfig,
    i: Datum,
    j: Datum,
    temp: Datum,
    low: u32,
    high: u32,
)
    requires
        i.is_finite(),
        i.proper(),
        j.is_finite(),
        j.proper(),
        i.le(j),
        low <= high,
        !(speed_with(cfg, i, temp, Datum::whole(low as int), Datum::whole(high as int)) is Nan),
    ensures
        ({
            let min = Datum::whole(low as int);
            let max = Datum::whole(high as int);
            speed_with(cfg, i, temp, min, max).le(speed_with(cfg, j, temp, min, max))
        }),
{
    let min = Datum::whole(low as int);
    let max = Datum::whole(high as int);
    lemma_speeds(low, high);
    let a = min.plus(cfg.kp@.times(temp.minus(cfg.target@)));
    if a.is_finite() {
        lemma_plus_commutes(a, i);
        lemma_plus_commutes(a, j);
        lemma_plus_monotone(i, j, a);
    }
}

/// The integral closes the gap that the proportional term leaves open: held at or above its
/// target and below critical, a sensor demands no less at the second of two polls than at the
/// first.
pub proof fn law_the_demand_never_falls_above_target(
    before: Sensor,
    after: Sensor,
    dt1: Binary64,
    dt2: Binary64,
    low: u32,
    high: u32,
)
    requires
        settings_ordered(before.cfg),
        !before.fails_safe(),
        !before.is_critical(),
        before.last_good->0@.is_finite(),
        before.cfg.target@.le(before.last_good->0@),
        before.integral_bounded(Datum::whole(low as int), Datum::whole(high as int)),
        dt1@.is_finite(),
        Datum::whole(0).le(dt1@),
        dt2@.is_finite(),
        Datum::whole(0).le(dt2@),
        !(push(before.cfg, before.last_good->0@, dt1@) is Nan),
        !(push(before.cfg, before.last_good->0@, dt2@) is Nan),
        low <= high,
        !(before.demanded(dt1@, Datum::whole(low as int), Datum::whole(high as int)).0 is Nan),
        after.same_but_integral(before),
        after.integral@ == before.integral_after(
            dt1@,
            Datum::whole(low as int),
            Datum::whole(high as int),
        ),
    ensures
        ({
            let min = Datum::whole(low as int);
            let max = Datum::whole(high as int);
            before.demanded(dt1@, min, max).0.le(after.demanded(dt2@, min, max).0)
        }),
{
    let min = Datum::whole(low as int);
    let max = Datum::whole(high as int);
    let cfg = before.cfg;
    let temp = before.last_good->0;
    lemma_speeds(low, high);
    lemma_whole_order(0, 0);
    lemma_whole_proper(0);
    lemma_cap(cfg, low, high);
    lemma_proper(before.integral);
    lemma_proper(after.integral);
    lemma_between_is_finite(before.integral@, Datum::whole(0), ceiling_of(cfg, min, max));
    lemma_push_sign(cfg, temp@, dt1@);
    lemma_push_sign(cfg, temp@, dt2@);
    lemma_integral_finite(cfg, before.integral@, temp@, dt1@, low, high);
    lemma_integral_finite(cfg, after.integral@, temp@, dt2@, low, high);
    law_the_integral_cannot_wind_up(before, after, dt1@, min, max);
    law_the_integral_follows_the_error(cfg, after.integral, temp, dt2, low, high);
    law_a_demand_goes_by_the_new_integral(before, dt1@, min, max);
    law_a_demand_goes_by_the_new_integral(after, dt2@, min, max);
    lemma_speed_rises(
        cfg,
        after.integral@,
        integral_of(cfg, after.integral@, temp@, dt2@, min, max),
        temp@,
        low,
        high,
    );
}

/// The integral keeps pushing until it may add no more. Held at or above its target, a sensor
/// has an integral of at least the grains that were added since, or at its ceiling; and once as
/// much was added as the integral may add, it demands what goes with all of that: the most of its
/// ramp and of the floor, the proportional term and the ceiling, held to the range.
pub proof fn law_the_integral_reaches_its_ceiling(
    cfg: SensorConfig,
    integral: Binary64,
    temp: Binary64,
    dts: Seq<Datum>,
    low: u32,
    high: u32,
)
    requires
        settings_ordered(cfg),
        temp@.is_finite(),
        cfg.target@.le(temp@),
        run_computes(cfg, temp@, dts),
        Datum::whole(0).le(integral@),
        integral@.le(ceiling_of(cfg, Datum::whole(low as int), Datum::whole(high as int))),
        low <= high,
    ensures
        ({
            let min = Datum::whole(low as int);
            let max = Datum::whole(high as int);
            let ceiling = ceiling_of(cfg, min, max);
            let after = integral_run(cfg, integral@, temp@, dts, min, max);
            let added = pushed(cfg, temp@, dts) * grain();
            &&& ceiling.place() == cap(cfg, low, high) * unit()
            &&& added <= after.place() || after.place() == ceiling.place()
            &&& added >= ceiling.place() ==> {
                &&& after.place() == ceiling.place()
                &&& speed_with(cfg, after, temp@, min, max).place() == speed_with(
                    cfg,
                    ceiling,
                    temp@,
                    min,
                    max,
                ).place()
            }
        }),
{
    let min = Datum::whole(low as int);
    let max = Datum::whole(high as int);
    let ceiling = ceiling_of(cfg, min, max);
    let g = grain() as int;
    lemma_whole_order(0, 0);
    lemma_whole_proper(0);
    lemma_proper(integral);
    lemma_cap(cfg, low, high);
    lemma_between_is_finite(integral@, Datum::whole(0), ceiling);
    lemma_run_bounded(cfg, integral@, temp@, dts, low, high);
    lemma_winds_up(cfg, integral@, temp@, dts, low, high);
    let after = integral_run(cfg, integral@, temp@, dts, min, max);
    let full = cap(cfg, low, high) * 0x10_0000;
    let count = pushed(cfg, temp@, dts);
    lemma_grains(0);
    assert((count * g >= full * g) == (count >= full)) by (nonlinear_arith)
        requires
            g > 0,
    ;
    if count >= full {
        lemma_speed_by_place(cfg, after, ceiling, temp@, min, max);
    }
}

/// The integral cannot wind up: held at or below its target, a sensor has an integral of at most
/// its ceiling less the grains that were taken away since, or of nothing; so that it is nothing
/// in a time that is bounded by the ceiling, however long the sensor sat above its target. Then
/// it demands what its ramp asks for alone.
pub proof fn law_the_integral_unwinds_in_bounded_time(
    cfg: SensorConfig,
    integral: Binary64,
    temp: Binary64,
    dts: Seq<Datum>,
    low: u32,
    high: u32,
)
    requires
        settings_ordered(cfg),
        temp@.is_finite(),
        temp@.le(cfg.target@),
        run_computes(cfg, temp@, dts),
        Datum::whole(0).le(integral@),
        integral@.le(ceiling_of(cfg, Datum::whole(low as int), Datum::whole(high as int))),
        low <= high,
    ensures
        ({
            let min = Datum::whole(low as int);
            let max = Datum::whole(high as int);
            let ceiling = ceiling_of(cfg, min, max);
            let after = integral_run(cfg, integral@, temp@, dts, min, max);
            let taken = pushed(cfg, temp@, dts) * grain();
            &&& ceiling.place() == cap(cfg, low, high) * unit()
            &&& after.place() <= ceiling.place() - taken || after.place() == 0
            &&& taken >= ceiling.place() ==> {
                &&& after.place() == 0
                &&& ramp_computes(cfg, temp@) ==> speed_with(cfg, after, temp@, min, max).place()
                    == baseline_of(cfg, temp@, min, max).place()
            }
        }),
{
    let min = Datum::whole(low as int);
    let max = Datum::whole(high as int);
    let ceiling = ceiling_of(cfg, min, max);
    let g = grain() as int;
    lemma_whole_order(0, 0);
    lemma_whole_proper(0);
    lemma_proper(integral);
    lemma_cap(cfg, low, high);
    lemma_between_is_finite(integral@, Datum::whole(0), ceiling);
    lemma_run_bounded(cfg, integral@, temp@, dts, low, high);
    lemma_unwinds(cfg, integral@, temp@, dts, low, high);
    let after = integral_run(cfg, integral@, temp@, dts, min, max);
    let full = cap(cfg, low, high) * 0x10_0000;
    let count = pushed(cfg, temp@, dts);
    lemma_grains(0);
    assert(0 * g == 0 && (full - count) * g == full * g - count * g) by (nonlinear_arith);
    assert((count * g >= full * g) == (count >= full)) by (nonlinear_arith)
        requires
            g > 0,
    ;
    if count >= full && ramp_computes(cfg, temp@) {
        lemma_ramp_alone(cfg, after, temp, low, high);
    }
}

/// Without an integral a sensor at or below its target demands what its ramp asks for.
proof fn lemma_ramp_alone(
    cfg: SensorConfig,
    integral: Datum,
    temp: Binary64,
    low: u32,
    high: u32,
)
    requires
        settings_ordered(cfg),
        temp@.is_finite(),
        temp@.le(cfg.target@),
        ramp_computes(cfg, temp@),
        integral.is_finite(),
        integral.place() == 0,
        low <= high,
    ensures
        ({
            let min = Datum::whole(low as int);
            let max = Datum::whole(high as int);
            speed_with(cfg, integral, temp@, min, max).place() == baseline_of(
                cfg,
                temp@,
                min,
                max,
            ).place()
        }),
{
    let min = Datum::whole(low as int);
    let max = Datum::whole(high as int);
    let nought = Datum::whole(0);
    let error = temp@.minus(cfg.target@);
    let p = cfg.kp@.times(error);
    lemma_proper(temp);
    lemma_proper(cfg.kp);
    lemma_speeds(low, high);
    lemma_whole_order(0, 0);
    lemma_whole_proper(0);
    law_the_ramp_rises_with_temperature(cfg, temp@, temp@, low, high);
    if !(p is Nan) {
        lemma_minus_sign(temp@, cfg.target@);
        lemma_nothing_times(nought, cfg.kp@);
        lemma_times_commutes(cfg.kp@, nought);
        lemma_times_monotone(cfg.kp@, error, nought);
        lemma_plus_commutes(min, p);
        lemma_plus_commutes(min, nought);
        lemma_plus_monotone(p, nought, min);
        lemma_plus_nothing(min, nought);
        lemma_plus_number(p, min);
        let a = min.plus(p);
        if a.is_finite() {
            lemma_plus_nothing(a, integral);
        }
    }
}

/// Polls that each add or take away an rpm or more count for as many rpm.
proof fn lemma_steady_push(cfg: SensorConfig, temp: Datum, dts: Seq<Datum>)
    requires
        forall|k: int|
            0 <= k < dts.len() ==> magnitude(push(cfg, temp, #[trigger] dts[k]).place()) >= unit(),
    ensures
        pushed(cfg, temp, dts) >= dts.len() * 0x10_0000,
    decreases dts.len(),
{
    if dts.len() > 0 {
        let rest = dts.drop_last();
        let x = push(cfg, temp, dts.last());
        assert(dts.last() == dts[dts.len() - 1]);
        assert forall|k: int| 0 <= k < rest.len() implies magnitude(
            push(cfg, temp, #[trigger] rest[k]).place(),
        ) >= unit() by {
            assert(rest[k] == dts[k]);
        }
        lemma_steady_push(cfg, temp, rest);
        lemma_grains(0);
        let g = grain() as int;
        let m = magnitude(x.place());
        lemma_fundamental_div_mod(m, g);
        assert(grains(x) >= 0x10_0000) by (nonlinear_arith)
            requires
                m == g * grains(x) + m % g,
                0 <= m % g < g,
                m >= 0x10_0000 * g,
                g > 0,
        ;
    }
}

/// Held above its target so that each poll adds an rpm or more, the integral is at its ceiling
/// after as many polls as the ceiling has rpm; and held below so that each poll takes an rpm or
/// more away, it is nothing after as many.
pub proof fn law_the_integral_takes_at_most_a_poll_an_rpm(
    cfg: SensorConfig,
    integral: Binary64,
    temp: Binary64,
    dts: Seq<Datum>,
    low: u32,
    high: u32,
)
    requires
        settings_ordered(cfg),
        temp@.is_finite(),
        run_computes(cfg, temp@, dts),
        Datum::whole(0).le(integral@),
        integral@.le(ceiling_of(cfg, Datum::whole(low as int), Datum::whole(high as int))),
        low <= high,
        dts.len() >= cap(cfg, low, high),
    ensures
        ({
            let min = Datum::whole(low as int);
            let max = Datum::whole(high as int);
            let after = integral_run(cfg, integral@, temp@, dts, min, max);
            &&& cfg.target@.le(temp@) && (forall|k: int|
                0 <= k < dts.len() ==> Datum::whole(1).le(push(cfg, temp@, #[trigger] dts[k])))
                ==> after.place() == ceiling_of(cfg, min, max).place()
            &&& temp@.le(cfg.target@) && (forall|k: int|
                0 <= k < dts.len() ==> push(cfg, temp@, #[trigger] dts[k]).le(Datum::whole(-1)))
                ==> after.place() == 0
        }),
{
    let c = cap(cfg, low, high);
    let count = pushed(cfg, temp@, dts);
    let g = grain() as int;
    lemma_grains(0);
    lemma_cap(cfg, low, high);
    lemma_whole_order(1, -1);
    assert(1 * unit() == unit() && -1 * unit() == -unit()) by (nonlinear_arith);
    let up = cfg.target@.le(temp@) && (forall|k: int|
        0 <= k < dts.len() ==> Datum::whole(1).le(push(cfg, temp@, #[trigger] dts[k])));
    let down = temp@.le(cfg.target@) && (forall|k: int|
        0 <= k < dts.len() ==> push(cfg, temp@, #[trigger] dts[k]).le(Datum::whole(-1)));
    if up || down {
        assert forall|k: int| 0 <= k < dts.len() implies magnitude(
            push(cfg, temp@, #[trigger] dts[k]).place(),
        ) >= unit() by {
            if up {
                assert(Datum::whole(1).le(push(cfg, temp@, dts[k])));
            } else {
                assert(push(cfg, temp@, dts[k]).le(Datum::whole(-1)));
            }
        }
        lemma_steady_push(cfg, temp@, dts);
        assert(count * g >= (c * 0x10_0000) * g) by (nonlinear_arith)
            requires
                count >= c * 0x10_0000,
                g >= 0,
        ;
    }
    if up {
        law_the_integral_reaches_its_ceiling(cfg, integral, temp, dts, low, high);
    }
    if down {
        law_the_integral_unwinds_in_bounded_time(cfg, integral, temp, dts, low, high);
    }
}

} // verus!
