//! How fast the commanded speed changes, in the whole rpm that are written to the fans.
use crate::binary64::Binary64;
use crate::config::Config;
use crate::control::{lemma_between_is_finite, lemma_prevailing_in_range, Governor};
use crate::datum::{lemma_whole_order, unit, Datum};
use crate::order::{
    grain, lemma_grains, lemma_plus_at_least, lemma_plus_at_most, lemma_proper,
    lemma_times_at_most, lemma_whole_proper, lemma_whole_u32_bounds, lemma_whole_u32_is_nearest,
};
use crate::policy::{
    law_a_valid_configuration_can_always_step, law_the_command_stays_in_range,
    law_the_speed_changes_no_faster_than_the_ramps,
};
use vstd::prelude::*;

verus! {

/// A whole speed is commanded as it is: the first command follows on from the speed that the
/// fans were taken over at.
pub proof fn law_a_whole_speed_is_commanded_as_it_is(rpm: u32)
    ensures
        Datum::whole(rpm as int).whole_u32() == rpm,
{
    lemma_whole_order(rpm as int, rpm as int);
    lemma_whole_u32_bounds(Datum::whole(rpm as int), rpm, rpm);
}

/// A fall by no more than a ramp allows is one of no more whole rpm than that, and one.
proof fn lemma_fall(from: Datum, to: Datum, ramp: Datum, dt: Datum, high: u32)
    requires
        Datum::whole(0).le(from),
        from.le(Datum::whole(high as int)),
        Datum::whole(0).le(to),
        to.le(Datum::whole(high as int)),
        from.is_finite(),
        ramp.is_finite(),
        dt.is_finite(),
        ramp.place() >= 0,
        dt.place() >= 0,
        from.minus(ramp.times(dt)).le(to),
    ensures
        (from.whole_u32() - to.whole_u32() - 1) * unit() * unit() <= ramp.place() * dt.place(),
{
    let a = from.whole_u32() as int;
    let b = to.whole_u32() as int;
    let c = a - b - 1;
    let one = unit() as int;
    let g = grain() as int;
    let whole = ramp.place() * dt.place();
    lemma_grains(0);
    lemma_whole_u32_is_nearest(from, high);
    lemma_whole_u32_is_nearest(to, high);
    assert(whole >= 0) by (nonlinear_arith)
        requires
            whole == ramp.place() * dt.place(),
            ramp.place() >= 0,
            dt.place() >= 0,
    ;
    if c <= 0 {
        assert(c * one * one <= 0) by (nonlinear_arith)
            requires
                c <= 0,
                one >= 0,
        ;
    } else if whole < c * one * one {
        let n = c * 0x10_0000;
        assert((n * g) * one == c * one * one) by (nonlinear_arith)
            requires
                n == c * 0x10_0000,
                one == 0x10_0000 * g,
        ;
        lemma_times_at_most(ramp, dt, n);
        let limit = ramp.times(dt);
        // Half a turn below the speed it may fall to is a number of the format, so that the fall
        // does not round under it.
        let k = (2 * b + 1) * 0x8_0000;
        assert(2 * (from.place() - limit.place()) >= 2 * (k * g)) by (nonlinear_arith)
            requires
                2 * a * one <= 2 * from.place() + one,
                limit.place() <= n * g,
                n == c * 0x10_0000,
                k == (2 * b + 1) * 0x8_0000,
                c == a - b - 1,
                one == 0x10_0000 * g,
        ;
        assert(limit.negated().place() == -limit.place());
        lemma_plus_at_least(from, limit.negated(), k);
        assert(2 * (k * g) + one == 2 * (b + 1) * one) by (nonlinear_arith)
            requires
                k == (2 * b + 1) * 0x8_0000,
                one == 0x10_0000 * g,
        ;
    }
}

/// A rise by no more than a ramp allows is one of no more whole rpm than that, and one: exactly
/// so unless the speed it ends at lies half way between two whole ones, and to within a grain in
/// any case.
proof fn lemma_rise(from: Datum, to: Datum, ramp: Datum, dt: Datum, high: u32)
    requires
        Datum::whole(0).le(from),
        from.le(Datum::whole(high as int)),
        Datum::whole(0).le(to),
        to.le(Datum::whole(high as int)),
        from.is_finite(),
        ramp.is_finite(),
        dt.is_finite(),
        ramp.place() >= 0,
        dt.place() >= 0,
        to.le(from.plus(ramp.times(dt))),
    ensures
        ({
            let rise = to.whole_u32() - from.whole_u32();
            &&& ((rise - 1) * unit() - grain()) * unit() <= ramp.place() * dt.place()
            &&& (rise - 1) * unit() * unit() <= ramp.place() * dt.place() || 2 * to.place() == (2
                * to.whole_u32() - 1) * unit()
        }),
{
    let a = from.whole_u32() as int;
    let b = to.whole_u32() as int;
    let c = b - a - 1;
    let one = unit() as int;
    let g = grain() as int;
    let whole = ramp.place() * dt.place();
    lemma_grains(0);
    lemma_whole_u32_is_nearest(from, high);
    lemma_whole_u32_is_nearest(to, high);
    assert(whole >= 0) by (nonlinear_arith)
        requires
            whole == ramp.place() * dt.place(),
            ramp.place() >= 0,
            dt.place() >= 0,
    ;
    assert((c * one - g) * one <= c * one * one) by (nonlinear_arith)
        requires
            g >= 0,
            one >= 0,
    ;
    if c <= 0 {
        assert(c * one * one <= 0) by (nonlinear_arith)
            requires
                c <= 0,
                one >= 0,
        ;
    } else {
        let limit = ramp.times(dt);
        let k = (2 * b - 1) * 0x8_0000;
        assert(2 * (k * g) == (2 * b - 1) * one && 2 * (k * g) + one == 2 * b * one)
            by (nonlinear_arith)
            requires
                k == (2 * b - 1) * 0x8_0000,
                one == 0x10_0000 * g,
        ;
        if whole < c * one * one {
            let n = c * 0x10_0000;
            assert((n * g) * one == c * one * one) by (nonlinear_arith)
                requires
                    n == c * 0x10_0000,
                    one == 0x10_0000 * g,
            ;
            lemma_times_at_most(ramp, dt, n);
            assert(2 * (from.place() + limit.place()) < 2 * (k * g)) by (nonlinear_arith)
                requires
                    2 * from.place() + one < 2 * (a + 1) * one,
                    limit.place() <= n * g,
                    n == c * 0x10_0000,
                    k == (2 * b - 1) * 0x8_0000,
                    c == b - a - 1,
                    one == 0x10_0000 * g,
            ;
            lemma_plus_at_most(from, limit, k);
        }
        if whole < (c * one - g) * one {
            let n = c * 0x10_0000 - 1;
            assert((n * g) * one == (c * one - g) * one) by (nonlinear_arith)
                requires
                    n == c * 0x10_0000 - 1,
                    one == 0x10_0000 * g,
            ;
            lemma_times_at_most(ramp, dt, n);
            assert(2 * (from.place() + limit.place()) < 2 * ((k - 1) * g)) by (nonlinear_arith)
                requires
                    2 * from.place() + one < 2 * (a + 1) * one,
                    limit.place() <= n * g,
                    n == c * 0x10_0000 - 1,
                    k == (2 * b - 1) * 0x8_0000,
                    c == b - a - 1,
                    one == 0x10_0000 * g,
            ;
            lemma_plus_at_most(from, limit, k - 1);
            assert((k - 1) * g < k * g) by (nonlinear_arith)
                requires
                    g > 0,
            ;
        }
    }
}

/// The lesser of two speeds is no more whole rpm, so there is no change that way to be bounded.
proof fn lemma_no_change(lesser: Datum, greater: Datum, ramp: Datum, dt: Datum, high: u32)
    requires
        Datum::whole(0).le(lesser),
        lesser.le(greater),
        greater.le(Datum::whole(high as int)),
        ramp.place() >= 0,
        dt.place() >= 0,
    ensures
        ({
            let change = lesser.whole_u32() - greater.whole_u32();
            &&& (change - 1) * unit() * unit() <= ramp.place() * dt.place()
            &&& ((change - 1) * unit() - grain()) * unit() <= ramp.place() * dt.place()
        }),
{
    let a = lesser.whole_u32() as int;
    let b = greater.whole_u32() as int;
    let one = unit() as int;
    let c = a - b - 1;
    lemma_grains(0);
    lemma_whole_u32_is_nearest(lesser, high);
    lemma_whole_u32_is_nearest(greater, high);
    assert(a < b + 1) by (nonlinear_arith)
        requires
            2 * a * one <= 2 * lesser.place() + one,
            2 * greater.place() + one < 2 * (b + 1) * one,
            lesser.place() <= greater.place(),
            one > 0,
    ;
    assert(c * one * one <= 0 && (c * one - grain()) * one <= 0) by (nonlinear_arith)
        requires
            c < 0,
            one > 0,
            grain() >= 0,
    ;
    assert(ramp.place() * dt.place() >= 0) by (nonlinear_arith)
        requires
            ramp.place() >= 0,
            dt.place() >= 0,
    ;
}

/// From one command to the next the speed stays in the range, falls by at most
/// `ramp_down * dt` and one rpm, and, unless a sensor is critical or has failed, rises by at most
/// `ramp_up * dt` and one rpm. The products are exact, and the one is for rounding to whole rpm.
/// A rise to exactly half way between two whole speeds, which rounding in the format can bring
/// about, may exceed that, by at most two to the power -20 of an rpm.
pub proof fn law_commands_change_no_faster_than_the_ramps(
    config: Config,
    g: Governor,
    dt: Binary64,
    low: u32,
    high: u32,
)
    requires
        config.problem() is None,
        g.ramp_up == config.ramp_up_rpm_per_s,
        g.ramp_down == config.ramp_down_rpm_per_s,
        g.valid(),
        g.min_rpm@ == Datum::whole(low as int),
        g.max_rpm@ == Datum::whole(high as int),
        dt@.is_finite(),
        Datum::whole(0).le(dt@),
    ensures
        ({
            let next = g.speed_after(dt@);
            let was = g.current@.whole_u32();
            let now = next.whole_u32();
            let up = g.ramp_up@.place() * dt@.place();
            let down = g.ramp_down@.place() * dt@.place();
            &&& low <= now <= high
            &&& (was - now - 1) * unit() * unit() <= down
            &&& !g.verdict(dt@).1.is_urgent() ==> {
                &&& ((now - was - 1) * unit() - grain()) * unit() <= up
                &&& (now - was - 1) * unit() * unit() <= up || 2 * next.place() == (2 * now - 1)
                    * unit()
            }
        }),
{
    let current = g.current@;
    let next = g.speed_after(dt@);
    let target = g.verdict(dt@).0;
    law_a_valid_configuration_can_always_step(config, g, dt@);
    law_the_command_stays_in_range(g, dt@, low, high);
    law_the_speed_changes_no_faster_than_the_ramps(g, dt);
    lemma_proper(g.current);
    lemma_whole_order(0, low as int);
    lemma_whole_order(0, high as int);
    lemma_prevailing_in_range(g.sensors@, dt@, g.min_rpm@, g.max_rpm@);
    lemma_whole_proper(low as int);
    lemma_whole_proper(high as int);
    lemma_between_is_finite(current, g.min_rpm@, g.max_rpm@);
    if target.le(current) {
        lemma_fall(current, next, g.ramp_down@, dt@, high);
        lemma_no_change(next, current, g.ramp_up@, dt@, high);
    } else {
        lemma_no_change(current, next, g.ramp_down@, dt@, high);
        if !g.verdict(dt@).1.is_urgent() {
            lemma_rise(current, next, g.ramp_up@, dt@, high);
        }
    }
}

} // verus!
