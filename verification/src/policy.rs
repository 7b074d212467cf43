//! What the control policy promises, proved of the definitions that the controllers and the
//! governor are held to.
use crate::binary64::Binary64;
use crate::config::{law_valid_sensors_are_ordered, Config, SensorConfig};
use crate::control::{
    baseline_of, ceiling_of, integral_of, lemma_approached_in_range, lemma_between_is_finite,
    lemma_ceiling, lemma_prevailing_in_range, prevailing, reading_problem, sample_reports, wanted,
    Governor, Problem, Reason, Sensor,
};
use crate::datum::{lemma_whole_order, magnitude, unit, Datum};
use crate::order::{
    lemma_minus_sign, lemma_nothing_times, lemma_one_times, lemma_over_itself, lemma_over_monotone,
    lemma_plus_commutes, lemma_plus_monotone, lemma_plus_nothing, lemma_plus_number, lemma_proper,
    lemma_settled, lemma_times_monotone, lemma_whole_proper, lemma_whole_sum,
    lemma_whole_u32_bounds,
};
use crate::rounding::{lemma_rounded_exact, lemma_rounded_monotone};
use vstd::arithmetic::power2::{
    lemma2_to64, lemma_pow2_adds, lemma_pow2_pos, lemma_pow2_strictly_increases, pow2,
};
use vstd::prelude::*;

verus! {

/// The fans run at the highest of the demands: no sensor demands more than the demand that
/// prevails, and that one is a sensor's own, or the floor.
pub proof fn law_the_highest_demand_prevails(
    sensors: Seq<Sensor>,
    dt: Datum,
    min: Datum,
    max: Datum,
    i: int,
)
    requires
        min.le(max),
        0 <= i < sensors.len(),
    ensures
        sensors[i].demanded(dt, min, max).0 is Nan || sensors[i].demanded(dt, min, max).0.le(
            prevailing(sensors, dt, min, max).0,
        ),
        prevailing(sensors, dt, min, max) == (min, Reason::Idle) || exists|j: int|
            0 <= j < sensors.len() && prevailing(sensors, dt, min, max) == (
            #[trigger] sensors[j]).demanded(dt, min, max),
    decreases sensors.len(),
{
    let rest = sensors.drop_last();
    let last = sensors.len() - 1;
    lemma_prevailing_in_range(rest, dt, min, max);
    lemma_prevailing_in_range(sensors, dt, min, max);
    assert(sensors.last() == sensors[last]);
    if rest.len() > 0 {
        let k = if i < last {
            i
        } else {
            0
        };
        law_the_highest_demand_prevails(rest, dt, min, max, k);
        assert(rest[k] == sensors[k]);
        if prevailing(rest, dt, min, max) != (min, Reason::Idle) {
            let j = choose|j: int|
                0 <= j < rest.len() && prevailing(rest, dt, min, max) == (
                #[trigger] rest[j]).demanded(dt, min, max);
            assert(rest[j] == sensors[j]);
        }
    }
}

/// Where the reason is idleness nothing is demanded above the floor.
pub proof fn law_idle_means_the_floor(sensors: Seq<Sensor>, dt: Datum, min: Datum, max: Datum)
    requires
        min.le(max),
    ensures
        prevailing(sensors, dt, min, max).1 is Idle ==> prevailing(
            sensors,
            dt,
            min,
            max,
        ).0.place() == min.place(),
    decreases sensors.len(),
{
    if sensors.len() > 0 {
        law_idle_means_the_floor(sensors.drop_last(), dt, min, max);
        lemma_prevailing_in_range(sensors.drop_last(), dt, min, max);
    }
}

/// One sensor that is critical or fails safe makes the prevailing demand the maximum, for an
/// urgent reason, whatever the others ask for.
pub proof fn law_an_urgent_sensor_demands_the_maximum(
    sensors: Seq<Sensor>,
    dt: Datum,
    min: Datum,
    max: Datum,
    i: int,
)
    requires
        min.le(max),
        0 <= i < sensors.len(),
        sensors[i].fails_safe() || sensors[i].is_critical(),
    ensures
        prevailing(sensors, dt, min, max).0.place() == max.place(),
        prevailing(sensors, dt, min, max).1.is_urgent(),
    decreases sensors.len(),
{
    let rest = sensors.drop_last();
    lemma_prevailing_in_range(rest, dt, min, max);
    if i < rest.len() {
        assert(rest[i] == sensors[i]);
        law_an_urgent_sensor_demands_the_maximum(rest, dt, min, max, i);
        let d = sensors.last().demanded(dt, min, max);
        assert(d.0 is Nan || d.0.le(max));
    } else {
        assert(sensors.last() == sensors[i]);
    }
}

/// An emergency gets the air it asks for on the poll that detects it: with one sensor that is
/// critical or fails safe the fans are commanded to the maximum at once, whatever the time
/// since the last poll, whatever the rate limits and whatever the cap on its integral.
pub proof fn law_an_emergency_is_answered_at_once(g: Governor, dt: Datum, i: int, high: u32)
    requires
        g.valid(),
        g.takes(dt),
        g.max_rpm@ == Datum::whole(high as int),
        0 <= i < g.sensors@.len(),
        g.sensors@[i].fails_safe() || g.sensors@[i].is_critical(),
    ensures
        g.verdict(dt).1.is_urgent(),
        g.speed_after(dt).place() == g.max_rpm@.place(),
        g.speed_after(dt).whole_u32() == high,
{
    let min = g.min_rpm@;
    let max = g.max_rpm@;
    let (target, reason) = g.verdict(dt);
    law_an_urgent_sensor_demands_the_maximum(g.sensors@, dt, min, max, i);
    lemma_proper(g.min_rpm);
    lemma_proper(g.max_rpm);
    lemma_proper(g.current);
    lemma_prevailing_in_range(g.sensors@, dt, min, max);
    lemma_between_is_finite(target, min, max);
    lemma_between_is_finite(g.current@, min, max);
    lemma_approached_in_range(
        g.current@,
        target,
        reason.is_urgent(),
        g.ramp_up@,
        g.ramp_down@,
        dt,
        min,
        max,
    );
    if !g.current@.lt(target) {
        let limit = g.ramp_down@.times(dt);
        lemma_whole_order(0, 0);
        let gap = target.minus(g.current@);
        assert(gap.place() == 0 && gap.is_finite());
        let change = gap.held(limit.negated(), limit);
        assert(limit.negated().place() == -limit.place());
        assert(change == gap);
        lemma_plus_nothing(g.current@, change);
    }
    lemma_whole_u32_bounds(g.speed_after(dt), high, high);
}

/// The commanded speed never leaves the range.
pub proof fn law_the_command_stays_in_range(g: Governor, dt: Datum, low: u32, high: u32)
    requires
        g.valid(),
        g.takes(dt),
        g.min_rpm@ == Datum::whole(low as int),
        g.max_rpm@ == Datum::whole(high as int),
    ensures
        g.min_rpm@.le(g.speed_after(dt)),
        g.speed_after(dt).le(g.max_rpm@),
        low <= g.speed_after(dt).whole_u32() <= high,
{
    let min = g.min_rpm@;
    let max = g.max_rpm@;
    let (target, reason) = g.verdict(dt);
    lemma_proper(g.min_rpm);
    lemma_proper(g.max_rpm);
    lemma_prevailing_in_range(g.sensors@, dt, min, max);
    lemma_between_is_finite(target, min, max);
    lemma_between_is_finite(g.current@, min, max);
    lemma_approached_in_range(
        g.current@,
        target,
        reason.is_urgent(),
        g.ramp_up@,
        g.ramp_down@,
        dt,
        min,
        max,
    );
    lemma_whole_order(low as int, high as int);
    lemma_whole_u32_bounds(g.speed_after(dt), low, high);
}

/// What a product that is a number is.
pub proof fn lemma_product_proper(a: Datum, b: Datum)
    requires
        a.proper(),
        b.proper(),
    ensures
        a.times(b).proper(),
{
    lemma_pow2_pos(1074);
    if let (Datum::Finite { neg: x, mag: m }, Datum::Finite { neg: y, mag: n }) = (a, b) {
        assert((m * n) as int >= 0) by (nonlinear_arith)
            requires
                m >= 0,
                n >= 0,
        ;
        lemma_settled(x != y, (m * n) as int, unit() as int);
    }
}

/// The speed changes no faster than the ramps allow, and never away from the target: without
/// an emergency it rises by at most `ramp_up * dt`, and it falls by at most `ramp_down * dt`,
/// with the rounding of the format.
pub proof fn law_the_speed_changes_no_faster_than_the_ramps(g: Governor, dt: Binary64)
    requires
        g.valid(),
        g.takes(dt@),
    ensures
        ({
            let (target, reason) = g.verdict(dt@);
            let next = g.speed_after(dt@);
            &&& g.current@.lt(target) ==> g.current@.le(next)
            &&& g.current@.lt(target) && !reason.is_urgent() ==> next.le(
                g.current@.plus(g.ramp_up@.times(dt@)),
            )
            &&& target.le(g.current@) ==> next.le(g.current@)
            &&& target.le(g.current@) ==> g.current@.minus(g.ramp_down@.times(dt@)).le(next)
        }),
{
    let min = g.min_rpm@;
    let max = g.max_rpm@;
    let current = g.current@;
    let (target, reason) = g.verdict(dt@);
    lemma_proper(g.min_rpm);
    lemma_proper(g.max_rpm);
    lemma_proper(g.current);
    lemma_proper(dt);
    lemma_proper(g.ramp_up);
    lemma_proper(g.ramp_down);
    lemma_prevailing_in_range(g.sensors@, dt@, min, max);
    lemma_between_is_finite(target, min, max);
    lemma_between_is_finite(current, min, max);
    lemma_whole_order(0, 0);
    lemma_whole_proper(0);
    let ramp = if current.lt(target) {
        g.ramp_up@
    } else {
        g.ramp_down@
    };
    if reason.is_urgent() && current.lt(target) {
        assert(target.held(min, max) == target);
    } else {
        let limit = ramp.times(dt@);
        lemma_product_proper(ramp, dt@);
        lemma_minus_sign(target, current);
        let gap = target.minus(current);
        let change = gap.held(limit.negated(), limit);
        let nought = Datum::whole(0);
        let x = current.plus(change);
        lemma_plus_commutes(current, change);
        lemma_plus_commutes(current, limit);
        lemma_plus_commutes(current, nought);
        lemma_plus_commutes(current, limit.negated());
        lemma_plus_nothing(current, nought);
        lemma_plus_number(change, current);
        assert(limit.negated().place() == -limit.place());
        assert(limit.negated().proper());
        if current.lt(target) {
            lemma_plus_monotone(change, limit, current);
            lemma_plus_monotone(nought, change, current);
        } else {
            lemma_plus_monotone(limit.negated(), change, current);
            lemma_plus_monotone(change, nought, current);
        }
    }
}

/// A governor with the ramps of a valid configuration takes every step over a finite time that
/// is not negative.
pub proof fn law_a_valid_configuration_can_always_step(config: Config, g: Governor, dt: Datum)
    requires
        config.problem() is None,
        g.ramp_up == config.ramp_up_rpm_per_s,
        g.ramp_down == config.ramp_down_rpm_per_s,
        dt.is_finite(),
        Datum::whole(0).le(dt),
    ensures
        g.limits(dt),
        g.takes(dt),
{
    lemma_product_sign_known(g.ramp_up@, dt);
    lemma_product_sign_known(g.ramp_down@, dt);
}

/// A product of two finite numbers that are not negative is not negative.
pub proof fn lemma_product_sign_known(a: Datum, b: Datum)
    requires
        a.is_finite(),
        b.is_finite(),
        a.place() >= 0,
        b.place() >= 0,
    ensures
        Datum::whole(0).le(a.times(b)),
{
    lemma_pow2_pos(1074);
    lemma_whole_order(0, 0);
    let m = a->mag;
    let n = b->mag;
    let neg = (a->Finite_neg) != (b->Finite_neg);
    assert((m * n) as int >= 0) by (nonlinear_arith)
        requires
            m >= 0,
            n >= 0,
    ;
    lemma_settled(neg, (m * n) as int, unit() as int);
    if neg {
        assert(m * n == 0) by (nonlinear_arith)
            requires
                m == 0 || n == 0,
        ;
    }
}

/// A critical sensor neither winds its integral up nor unwinds it.
pub proof fn law_a_critical_sensor_keeps_its_integral(s: Sensor, dt: Datum, min: Datum, max: Datum)
    requires
        s.is_critical() || s.fails_safe(),
    ensures
        s.integral_after(dt, min, max) == s.integral@,
{
}

impl Sensor {
    /// That the integral term lies between nothing and its ceiling.
    pub open spec fn integral_bounded(self, min: Datum, max: Datum) -> bool {
        &&& Datum::whole(0).le(self.integral@)
        &&& self.integral@.le(ceiling_of(self.cfg, min, max))
    }
}

/// A sensor that has not been read yet has a bounded integral.
pub proof fn law_a_new_integral_is_bounded(s: Sensor, min: Datum, max: Datum)
    requires
        s.integral@ == Datum::whole(0),
        min.is_finite(),
        max.is_finite(),
        min.le(max),
    ensures
        s.integral_bounded(min, max),
{
    lemma_ceiling(s.cfg, min, max);
    lemma_whole_order(0, 0);
}

/// No time above target winds the integral up beyond what it may add, and none below it takes
/// it under nothing: the bounds hold after every demand where they held before it, and where
/// the term to be added is a number.
pub proof fn law_the_integral_cannot_wind_up(
    before: Sensor,
    after: Sensor,
    dt: Datum,
    min: Datum,
    max: Datum,
)
    requires
        min.is_finite(),
        max.is_finite(),
        min.le(max),
        before.integral_bounded(min, max),
        !(before.integral_after(dt, min, max) is Nan),
        after.cfg == before.cfg,
        after.integral@ == before.integral_after(dt, min, max),
    ensures
        after.integral_bounded(min, max),
        after.integral@.le(max.minus(min)),
        after.cfg.integral_limit_rpm matches Some(limit) ==> after.integral@.le(
            Datum::whole(limit as int),
        ),
{
    lemma_ceiling(before.cfg, min, max);
    lemma_whole_order(0, 0);
}

/// That the settings of a sensor are in the order that a valid configuration has them in.
pub open spec fn settings_ordered(cfg: SensorConfig) -> bool {
    &&& cfg.baseline_from@.is_finite()
    &&& cfg.target@.is_finite()
    &&& cfg.critical@.is_finite()
    &&& cfg.baseline_from@.lt(cfg.target@)
    &&& cfg.target@.lt(cfg.critical@)
    &&& cfg.kp@.is_finite()
    &&& cfg.ki@.is_finite()
    &&& Datum::whole(0).le(cfg.kp@)
    &&& Datum::whole(0).le(cfg.ki@)
}

/// The sensors of a valid configuration are in that order.
pub proof fn law_valid_settings_are_ordered(config: Config, i: int)
    requires
        config.problem() is None,
        0 <= i < config.sensors@.len(),
    ensures
        settings_ordered(config.sensors@[i]),
{
    law_valid_sensors_are_ordered(config, i);
}

/// That the ramp computes a number at `temp`. It does unless both its differences overflow the
/// format.
pub open spec fn ramp_computes(cfg: SensorConfig, temp: Datum) -> bool {
    let span = cfg.critical@.minus(cfg.baseline_from@);
    !(temp.minus(cfg.baseline_from@).over(span) is Nan)
}

/// What `dt` seconds at `temp` add to the integral.
pub open spec fn push(cfg: SensorConfig, temp: Datum, dt: Datum) -> Datum {
    cfg.ki@.times(temp.minus(cfg.target@)).times(dt)
}

/// That the terms of the controller at `temp` are numbers. They are unless a product or a
/// difference overflows the format and meets a factor of nothing.
pub open spec fn terms_compute(cfg: SensorConfig, temp: Datum, dt: Datum) -> bool {
    let error = temp.minus(cfg.target@);
    &&& !(cfg.kp@.times(error) is Nan)
    &&& !(push(cfg, temp, dt) is Nan)
}

/// A number of ordinary size: no larger than two to the power 64.
pub open spec fn ordinary(x: Datum) -> bool {
    x.is_finite() && magnitude(x.place()) <= pow2(1138)
}

/// The difference of two numbers of ordinary size is finite.
proof fn lemma_difference_finite(a: Datum, b: Datum)
    requires
        ordinary(a),
        ordinary(b),
    ensures
        a.minus(b).is_finite(),
        magnitude(a.minus(b).place()) <= pow2(1139),
{
    let s = a.place() - b.place();
    assert(b.negated().place() == -b.place());
    lemma2_to64();
    lemma_pow2_adds(1, 1138);
    lemma_pow2_strictly_increases(1139, 2098);
    lemma_rounded_exact(1, 1139, 1);
    assert((1 * pow2(1139)) * 1 == pow2(1139) && 1 * pow2(1139) == pow2(1139));
    lemma_rounded_monotone(magnitude(s), 1, pow2(1139) as int, 1);
    lemma_settled(s < 0, magnitude(s), 1);
}

/// The product of two such numbers is finite.
proof fn lemma_product_finite(a: Datum, b: Datum)
    requires
        ordinary(a),
        b.is_finite(),
        magnitude(b.place()) <= pow2(1139),
    ensures
        a.times(b).is_finite(),
{
    let m = a->mag as int;
    let n = b->mag as int;
    let one = unit() as int;
    lemma_pow2_pos(1074);
    lemma_pow2_adds(1138, 1139);
    lemma_pow2_adds(1203, 1074);
    lemma_pow2_strictly_increases(1203, 2098);
    assert(0 <= m * n && m * n <= pow2(1138) * pow2(1139)) by (nonlinear_arith)
        requires
            0 <= m <= pow2(1138),
            0 <= n <= pow2(1139),
    ;
    lemma_rounded_exact(1, 1203, one);
    assert((1 * pow2(1203)) * one == pow2(1203) * one && 1 * pow2(1203) == pow2(1203));
    assert((m * n) * one <= (pow2(1203) * one) * one) by (nonlinear_arith)
        requires
            m * n <= pow2(1203) * one,
            one > 0,
    ;
    lemma_rounded_monotone(m * n, one, pow2(1203) * one, one);
    lemma_settled((a->Finite_neg) != (b->Finite_neg), m * n, one);
}

/// With settings and readings of ordinary size the ramp and the controller compute numbers,
/// however long the time between polls.
pub proof fn law_ordinary_settings_compute(cfg: SensorConfig, temp: Datum, dt: Datum)
    requires
        settings_ordered(cfg),
        ordinary(cfg.baseline_from@),
        ordinary(cfg.target@),
        ordinary(cfg.critical@),
        ordinary(cfg.ki@),
        ordinary(temp),
        dt.is_finite(),
    ensures
        ramp_computes(cfg, temp),
        terms_compute(cfg, temp, dt),
{
    lemma_difference_finite(temp, cfg.target@);
    lemma_difference_finite(temp, cfg.baseline_from@);
    lemma_difference_finite(cfg.critical@, cfg.baseline_from@);
    lemma_minus_sign(cfg.critical@, cfg.baseline_from@);
    lemma_product_finite(cfg.ki@, temp.minus(cfg.target@));
}

/// The speed that the controller asks for.
pub open spec fn steered(
    cfg: SensorConfig,
    integral: Datum,
    temp: Datum,
    dt: Datum,
    min: Datum,
    max: Datum,
) -> Datum {
    let error = temp.minus(cfg.target@);
    min.plus(cfg.kp@.times(error)).plus(integral_of(cfg, integral, temp, dt, min, max))
}

pub proof fn lemma_times_commutes(a: Datum, b: Datum)
    ensures
        a.times(b) == b.times(a),
{
    if let (Datum::Finite { mag: m, .. }, Datum::Finite { mag: n, .. }) = (a, b) {
        assert(m * n == n * m) by (nonlinear_arith);
    }
}

/// The speed range of whole speeds, and its width.
pub proof fn lemma_speeds(low: u32, high: u32)
    requires
        low <= high,
    ensures
        ({
            let min = Datum::whole(low as int);
            let max = Datum::whole(high as int);
            &&& min.is_finite() && min.proper()
            &&& max.is_finite() && max.proper()
            &&& min.le(max)
            &&& max.minus(min).is_finite()
            &&& max.minus(min).proper()
            &&& max.minus(min).place() >= 0
            &&& max.minus(min).place() == Datum::whole(high - low).place()
            &&& min.plus(max.minus(min)).place() == max.place()
        }),
{
    lemma_whole_order(low as int, high as int);
    lemma_whole_proper(low as int);
    lemma_whole_proper(high as int);
    lemma_whole_proper(high - low);
    lemma_whole_order(0, high - low);
    let min = Datum::whole(low as int);
    let max = Datum::whole(high as int);
    if low == 0 {
        // The negative of nothing differs from nothing in its sign alone.
        lemma_minus_sign(max, min);
        lemma_plus_nothing(max, min.negated());
        lemma_plus_commutes(min, max.minus(min));
        lemma_plus_nothing(max.minus(min), min);
    } else {
        assert(min.negated() == Datum::whole(-(low as int)));
        lemma_whole_sum(high as int, -(low as int));
        lemma_whole_sum(low as int, high - low);
    }
}

/// The ramp rises with temperature.
pub proof fn law_the_ramp_rises_with_temperature(
    cfg: SensorConfig,
    t1: Datum,
    t2: Datum,
    low: u32,
    high: u32,
)
    requires
        settings_ordered(cfg),
        t1.is_finite(),
        t2.is_finite(),
        t1.proper(),
        t2.proper(),
        t1.le(t2),
        ramp_computes(cfg, t1),
        ramp_computes(cfg, t2),
        low <= high,
    ensures
        ({
            let min = Datum::whole(low as int);
            let max = Datum::whole(high as int);
            &&& min.le(baseline_of(cfg, t1, min, max))
            &&& baseline_of(cfg, t1, min, max).le(baseline_of(cfg, t2, min, max))
            &&& baseline_of(cfg, t2, min, max).le(max)
        }),
{
    let min = Datum::whole(low as int);
    let max = Datum::whole(high as int);
    let from = cfg.baseline_from@;
    let span = cfg.critical@.minus(from);
    let nought = Datum::whole(0);
    let one = Datum::whole(1);
    let width = max.minus(min);
    lemma_speeds(low, high);
    lemma_whole_order(0, 1);
    lemma_whole_proper(0);
    lemma_whole_proper(1);
    lemma_minus_sign(cfg.critical@, from);
    lemma_minus_sign(t1, from);
    lemma_minus_sign(t2, from);
    lemma_plus_monotone(t1, t2, from.negated());
    lemma_over_monotone(t1.minus(from), t2.minus(from), span);
    let f1 = t1.minus(from).over(span).held(nought, one);
    let f2 = t2.minus(from).over(span).held(nought, one);
    assert(nought.le(f1) && f1.le(f2) && f2.le(one));
    assert(f1.proper() && f2.proper());
    lemma_between_is_finite(f1, nought, one);
    lemma_between_is_finite(f2, nought, one);
    lemma_times_commutes(f1, width);
    lemma_times_commutes(f2, width);
    lemma_times_commutes(nought, width);
    lemma_times_commutes(one, width);
    lemma_times_monotone(width, nought, f1);
    lemma_times_monotone(width, f1, f2);
    lemma_times_monotone(width, f2, one);
    lemma_nothing_times(nought, width);
    lemma_one_times(width);
    lemma_plus_commutes(min, f1.times(width));
    lemma_plus_commutes(min, f2.times(width));
    lemma_plus_commutes(min, width);
    lemma_plus_commutes(min, nought.times(width));
    lemma_plus_monotone(nought.times(width), f1.times(width), min);
    lemma_plus_monotone(f1.times(width), f2.times(width), min);
    lemma_plus_monotone(f2.times(width), width, min);
    lemma_plus_nothing(min, nought.times(width));
}

/// The ramp starts at the floor, where the sensor starts asking for air, and asks for no less
/// below.
pub proof fn law_the_ramp_starts_at_the_floor(
    cfg: SensorConfig,
    temp: Datum,
    low: u32,
    high: u32,
)
    requires
        settings_ordered(cfg),
        temp.is_finite(),
        temp.le(cfg.baseline_from@),
        ramp_computes(cfg, temp),
        low <= high,
    ensures
        baseline_of(
            cfg,
            temp,
            Datum::whole(low as int),
            Datum::whole(high as int),
        ).place() == Datum::whole(low as int).place(),
{
    let min = Datum::whole(low as int);
    let max = Datum::whole(high as int);
    let from = cfg.baseline_from@;
    let span = cfg.critical@.minus(from);
    let nought = Datum::whole(0);
    let one = Datum::whole(1);
    let width = max.minus(min);
    lemma_speeds(low, high);
    lemma_whole_order(0, 1);
    lemma_whole_proper(0);
    lemma_minus_sign(cfg.critical@, from);
    lemma_minus_sign(temp, from);
    lemma_over_monotone(temp.minus(from), nought, span);
    lemma_settled(false, 0, span.place());
    lemma_settled(true, 0, span.place());
    assert(0 * unit() == 0) by (nonlinear_arith);
    let f = temp.minus(from).over(span).held(nought, one);
    assert(f.place() == 0 && f.is_finite());
    lemma_nothing_times(f, width);
    lemma_plus_nothing(min, f.times(width));
}

/// The ramp ends at the maximum, where the sensor is critical.
pub proof fn law_the_ramp_ends_at_the_maximum(cfg: SensorConfig, low: u32, high: u32)
    requires
        settings_ordered(cfg),
        cfg.critical@.minus(cfg.baseline_from@).is_finite(),
        low <= high,
    ensures
        baseline_of(
            cfg,
            cfg.critical@,
            Datum::whole(low as int),
            Datum::whole(high as int),
        ).place() == Datum::whole(high as int).place(),
{
    let min = Datum::whole(low as int);
    let max = Datum::whole(high as int);
    let span = cfg.critical@.minus(cfg.baseline_from@);
    lemma_speeds(low, high);
    lemma_whole_order(0, 1);
    lemma_whole_order(1, 1);
    lemma_minus_sign(cfg.critical@, cfg.baseline_from@);
    lemma_over_itself(span);
    lemma_one_times(max.minus(min));
}

/// The integral term is a finite number in its bounds, where it was one before.
pub proof fn lemma_integral_finite(
    cfg: SensorConfig,
    integral: Datum,
    temp: Datum,
    dt: Datum,
    low: u32,
    high: u32,
)
    requires
        low <= high,
        integral.is_finite(),
        integral.proper(),
        !(push(cfg, temp, dt) is Nan),
        push(cfg, temp, dt).proper(),
    ensures
        ({
            let min = Datum::whole(low as int);
            let max = Datum::whole(high as int);
            let i = integral_of(cfg, integral, temp, dt, min, max);
            &&& i.is_finite()
            &&& i.proper()
            &&& Datum::whole(0).le(i)
            &&& i.le(ceiling_of(cfg, min, max))
        }),
{
    let min = Datum::whole(low as int);
    let max = Datum::whole(high as int);
    lemma_speeds(low, high);
    lemma_ceiling(cfg, min, max);
    lemma_whole_order(0, 0);
    lemma_whole_proper(0);
    let x = cfg.ki@.times(temp.minus(cfg.target@)).times(dt);
    lemma_plus_commutes(integral, x);
    lemma_plus_number(x, integral);
    let ceiling = ceiling_of(cfg, min, max);
    lemma_between_is_finite(ceiling, Datum::whole(0), max.minus(min));
    let i = integral_of(cfg, integral, temp, dt, min, max);
    lemma_between_is_finite(i, Datum::whole(0), ceiling);
}

/// The controller asks for no less where it is hotter.
proof fn lemma_steered_rises(
    cfg: SensorConfig,
    integral: Binary64,
    t1: Binary64,
    t2: Binary64,
    dt: Binary64,
    low: u32,
    high: u32,
)
    requires
        settings_ordered(cfg),
        integral@.is_finite(),
        t1@.is_finite(),
        t2@.is_finite(),
        t1@.le(t2@),
        dt@.is_finite(),
        Datum::whole(0).le(dt@),
        terms_compute(cfg, t1@, dt@),
        terms_compute(cfg, t2@, dt@),
        low <= high,
    ensures
        ({
            let min = Datum::whole(low as int);
            let max = Datum::whole(high as int);
            steered(cfg, integral@, t1@, dt@, min, max).le(
                steered(cfg, integral@, t2@, dt@, min, max),
            )
        }),
{
    let min = Datum::whole(low as int);
    let max = Datum::whole(high as int);
    lemma_proper(t1);
    lemma_proper(t2);
    lemma_proper(integral);
    lemma_proper(dt);
    lemma_proper(cfg.kp);
    lemma_proper(cfg.ki);
    lemma_speeds(low, high);
    lemma_whole_order(0, 0);
    lemma_minus_sign(t1@, cfg.target@);
    lemma_minus_sign(t2@, cfg.target@);
    let e1 = t1@.minus(cfg.target@);
    let e2 = t2@.minus(cfg.target@);
    lemma_plus_monotone(t1@, t2@, cfg.target@.negated());
    // The proportional term.
    lemma_times_monotone(cfg.kp@, e1, e2);
    let p1 = cfg.kp@.times(e1);
    let p2 = cfg.kp@.times(e2);
    lemma_plus_commutes(min, p1);
    lemma_plus_commutes(min, p2);
    lemma_plus_monotone(p1, p2, min);
    let a1 = min.plus(p1);
    let a2 = min.plus(p2);
    lemma_plus_number(p1, min);
    lemma_plus_number(p2, min);
    // The integral term.
    lemma_times_monotone(cfg.ki@, e1, e2);
    let g1 = cfg.ki@.times(e1);
    let g2 = cfg.ki@.times(e2);
    lemma_times_commutes(g1, dt@);
    lemma_times_commutes(g2, dt@);
    lemma_times_monotone(dt@, g1, g2);
    let x1 = g1.times(dt@);
    let x2 = g2.times(dt@);
    lemma_plus_commutes(integral@, x1);
    lemma_plus_commutes(integral@, x2);
    lemma_plus_monotone(x1, x2, integral@);
    lemma_plus_number(x1, integral@);
    lemma_plus_number(x2, integral@);
    lemma_ceiling(cfg, min, max);
    lemma_integral_finite(cfg, integral@, t1@, dt@, low, high);
    lemma_integral_finite(cfg, integral@, t2@, dt@, low, high);
    let i1 = integral_of(cfg, integral@, t1@, dt@, min, max);
    let i2 = integral_of(cfg, integral@, t2@, dt@, min, max);
    assert(i1.le(i2));
    // Their sum.
    lemma_plus_monotone(a1, a2, i1);
    lemma_plus_number(a1, i1);
    lemma_plus_number(a2, i2);
    if a2.is_finite() {
        lemma_plus_commutes(a2, i1);
        lemma_plus_commutes(a2, i2);
        lemma_plus_monotone(i1, i2, a2);
    } else {
        assert(a2.plus(i1) == a2.plus(i2));
    }
}

/// "Steer up, never down": of two sensors with the same settings and the same integral the
/// hotter one demands no less, over the whole range of temperatures, with no dip where the
/// ramp hands over to the controller or where the sensor becomes critical.
pub proof fn law_the_demand_rises_with_temperature(
    cooler: Sensor,
    hotter: Sensor,
    dt: Binary64,
    low: u32,
    high: u32,
)
    requires
        settings_ordered(cooler.cfg),
        hotter.cfg == cooler.cfg,
        hotter.integral == cooler.integral,
        cooler.integral@.is_finite(),
        !cooler.fails_safe(),
        !hotter.fails_safe(),
        cooler.last_good->0@.is_finite(),
        hotter.last_good->0@.is_finite(),
        cooler.last_good->0@.le(hotter.last_good->0@),
        dt@.is_finite(),
        Datum::whole(0).le(dt@),
        low <= high,
        !(cooler.demanded(
            dt@,
            Datum::whole(low as int),
            Datum::whole(high as int),
        ).0 is Nan),
        hotter.is_critical() || (ramp_computes(hotter.cfg, hotter.last_good->0@) && terms_compute(
            hotter.cfg,
            hotter.last_good->0@,
            dt@,
        )),
    ensures
        ({
            let min = Datum::whole(low as int);
            let max = Datum::whole(high as int);
            cooler.demanded(dt@, min, max).0.le(hotter.demanded(dt@, min, max).0)
        }),
{
    let min = Datum::whole(low as int);
    let max = Datum::whole(high as int);
    let cfg = cooler.cfg;
    let t1 = cooler.last_good->0;
    let t2 = hotter.last_good->0;
    let integral = cooler.integral;
    lemma_speeds(low, high);
    lemma_whole_order(0, 0);
    lemma_proper(t1);
    lemma_proper(t2);
    lemma_proper(integral);
    if !hotter.is_critical() {
        let x1 = steered(cfg, integral@, t1@, dt@, min, max);
        let x2 = steered(cfg, integral@, t2@, dt@, min, max);
        let b1 = baseline_of(cfg, t1@, min, max);
        let b2 = baseline_of(cfg, t2@, min, max);
        let w1 = wanted(cfg, integral@, t1@, dt@, min, max);
        let w2 = wanted(cfg, integral@, t2@, dt@, min, max);
        law_the_ramp_rises_with_temperature(cfg, t2@, t2@, low, high);
        lemma_steered_rises(cfg, integral, t2, t2, dt, low, high);
        assert(x2.le(w2) && b2.le(w2));
        if !(b1 is Nan) {
            law_the_ramp_rises_with_temperature(cfg, t1@, t2@, low, high);
        }
        if !(x1 is Nan) {
            lemma_steered_rises(cfg, integral, t1, t2, dt, low, high);
        }
        assert(w1.le(w2));
    }
}

/// Ramp and controller are never summed. Below critical a sensor demands a speed in the range
/// and no less than its ramp does, and no more than its ramp or else the floor, the proportional
/// term and the whole of what its integral may add, which is at most its limit and at most the
/// width of the range. It is idle exactly where it demands the floor, and steers otherwise.
pub proof fn law_a_demand_lies_between_the_ramp_and_the_cap(
    s: Sensor,
    dt: Binary64,
    low: u32,
    high: u32,
)
    requires
        settings_ordered(s.cfg),
        !s.fails_safe(),
        !s.is_critical(),
        s.integral@.is_finite(),
        s.last_good->0@.is_finite(),
        ramp_computes(s.cfg, s.last_good->0@),
        low < high,
    ensures
        ({
            let min = Datum::whole(low as int);
            let max = Datum::whole(high as int);
            let temp = s.last_good->0@;
            let error = temp.minus(s.cfg.target@);
            let ramp = baseline_of(s.cfg, temp, min, max);
            let ceiling = ceiling_of(s.cfg, min, max);
            let (rpm, reason) = s.demanded(dt@, min, max);
            &&& min.le(rpm) && rpm.le(max)
            &&& ramp.le(rpm)
            &&& rpm.le(min.plus(s.cfg.kp@.times(error)).plus(ceiling).larger(ramp))
            &&& ceiling.le(max.minus(min))
            &&& s.cfg.integral_limit_rpm matches Some(limit) ==> ceiling.le(
                Datum::whole(limit as int),
            )
            &&& reason == (if rpm.place() == min.place() {
                Reason::Idle
            } else {
                Reason::Steering(s.cfg.key)
            })
        }),
{
    let min = Datum::whole(low as int);
    let max = Datum::whole(high as int);
    let temp = s.last_good->0@;
    let cfg = s.cfg;
    let error = temp.minus(cfg.target@);
    let ceiling = ceiling_of(cfg, min, max);
    let x = steered(cfg, s.integral@, temp, dt@, min, max);
    lemma_proper(s.last_good->0);
    lemma_proper(s.integral);
    lemma_proper(dt);
    lemma_proper(cfg.kp);
    lemma_proper(cfg.ki);
    lemma_speeds(low, high);
    lemma_whole_order(low as int, high as int);
    lemma_ceiling(cfg, min, max);
    law_the_ramp_rises_with_temperature(cfg, temp, temp, low, high);
    if !(x is Nan) {
        lemma_minus_sign(temp, cfg.target@);
        lemma_product_proper(cfg.kp@, error);
        lemma_product_proper(cfg.ki@, error);
        lemma_product_proper(cfg.ki@.times(error), dt@);
        lemma_integral_finite(cfg, s.integral@, temp, dt@, low, high);
        lemma_whole_order(0, 0);
        lemma_whole_proper(0);
        lemma_between_is_finite(ceiling, Datum::whole(0), max.minus(min));
        let i = integral_of(cfg, s.integral@, temp, dt@, min, max);
        let p = cfg.kp@.times(error);
        lemma_plus_commutes(min, p);
        lemma_plus_number(p, min);
        let a = min.plus(p);
        lemma_plus_number(a, i);
        lemma_plus_number(a, ceiling);
        if a.is_finite() {
            lemma_plus_commutes(a, i);
            lemma_plus_commutes(a, ceiling);
            lemma_plus_monotone(i, ceiling, a);
        }
    }
}

/// What a poll adds to the integral has the sign of the error.
pub proof fn lemma_push_sign(cfg: SensorConfig, temp: Datum, dt: Datum)
    requires
        settings_ordered(cfg),
        temp.is_finite(),
        dt.is_finite(),
        Datum::whole(0).le(dt),
        !(push(cfg, temp, dt) is Nan),
    ensures
        push(cfg, temp, dt).proper(),
        cfg.target@.le(temp) ==> push(cfg, temp, dt).place() >= 0,
        temp.le(cfg.target@) ==> push(cfg, temp, dt).place() <= 0,
{
    let nought = Datum::whole(0);
    lemma_proper(cfg.ki);
    lemma_whole_order(0, 0);
    lemma_whole_proper(0);
    let error = temp.minus(cfg.target@);
    lemma_minus_sign(temp, cfg.target@);
    lemma_nothing_times(nought, cfg.ki@);
    lemma_times_commutes(cfg.ki@, nought);
    let gain = cfg.ki@.times(error);
    let still = cfg.ki@.times(nought);
    lemma_nothing_times(still, dt);
    lemma_times_commutes(still, dt);
    lemma_times_commutes(gain, dt);
    if cfg.target@.le(temp) {
        lemma_times_monotone(cfg.ki@, nought, error);
        lemma_times_monotone(dt, still, gain);
    }
    if temp.le(cfg.target@) {
        lemma_times_monotone(cfg.ki@, error, nought);
        lemma_times_monotone(dt, gain, still);
    }
}

/// The integral follows the error. While a sensor is at or above its target the integral never
/// falls, and it rises or is at its ceiling after each poll that adds anything the format can
/// tell. While a sensor is at or below its target the integral never rises, and it falls or is
/// nothing after each such poll.
pub proof fn law_the_integral_follows_the_error(
    cfg: SensorConfig,
    integral: Binary64,
    temp: Binary64,
    dt: Binary64,
    low: u32,
    high: u32,
)
    requires
        settings_ordered(cfg),
        temp@.is_finite(),
        dt@.is_finite(),
        Datum::whole(0).le(dt@),
        Datum::whole(0).le(integral@),
        integral@.le(ceiling_of(cfg, Datum::whole(low as int), Datum::whole(high as int))),
        !(push(cfg, temp@, dt@) is Nan),
        low <= high,
    ensures
        ({
            let min = Datum::whole(low as int);
            let max = Datum::whole(high as int);
            let moved = integral@.plus(push(cfg, temp@, dt@));
            let after = integral_of(cfg, integral@, temp@, dt@, min, max);
            &&& cfg.target@.le(temp@) ==> {
                &&& integral@.le(after)
                &&& integral@.lt(moved) ==> integral@.lt(after) || after.place() == ceiling_of(
                    cfg,
                    min,
                    max,
                ).place()
            }
            &&& temp@.le(cfg.target@) ==> {
                &&& after.le(integral@)
                &&& moved.lt(integral@) ==> after.lt(integral@) || after.place() == 0
            }
        }),
{
    let min = Datum::whole(low as int);
    let max = Datum::whole(high as int);
    let nought = Datum::whole(0);
    lemma_proper(integral);
    lemma_speeds(low, high);
    lemma_ceiling(cfg, min, max);
    lemma_whole_order(0, 0);
    lemma_whole_proper(0);
    lemma_between_is_finite(ceiling_of(cfg, min, max), nought, max.minus(min));
    lemma_between_is_finite(integral@, nought, ceiling_of(cfg, min, max));
    let x = push(cfg, temp@, dt@);
    lemma_push_sign(cfg, temp@, dt@);
    lemma_plus_commutes(integral@, x);
    lemma_plus_commutes(integral@, nought);
    lemma_plus_nothing(integral@, nought);
    lemma_plus_number(x, integral@);
    if cfg.target@.le(temp@) {
        lemma_plus_monotone(nought, x, integral@);
    }
    if temp@.le(cfg.target@) {
        lemma_plus_monotone(x, nought, integral@);
    }
}

/// A sensor after a run of readings.
pub open spec fn sampled_over(
    s: Sensor,
    readings: Seq<Result<Binary64, String>>,
    range: [Binary64; 2],
    grace: u32,
) -> Sensor
    decreases readings.len(),
{
    if readings.len() == 0 {
        s
    } else {
        sampled_over(s, readings.drop_last(), range, grace).sampled(readings.last(), range, grace)
    }
}

/// A sensor that goes bad is ridden out on its last good reading for the grace period, and
/// then fails; it never reads as cold.
pub proof fn law_a_bad_sensor_fails_after_the_grace_period(
    s: Sensor,
    readings: Seq<Result<Binary64, String>>,
    range: [Binary64; 2],
    grace: u32,
)
    requires
        s.consecutive_bad == 0,
        !s.failed,
        readings.len() < u32::MAX,
        forall|i: int|
            0 <= i < readings.len() ==> reading_problem(#[trigger] readings[i], range) is Some,
    ensures
        sampled_over(s, readings, range, grace) == (Sensor {
            consecutive_bad: readings.len() as u32,
            failed: readings.len() > grace,
            ..s
        }),
    decreases readings.len(),
{
    if readings.len() > 0 {
        let rest = readings.drop_last();
        assert forall|i: int| 0 <= i < rest.len() implies reading_problem(
            #[trigger] rest[i],
            range,
        ) is Some by {
            assert(rest[i] == readings[i]);
        }
        law_a_bad_sensor_fails_after_the_grace_period(s, rest, range, grace);
        assert(readings.last() == readings[readings.len() - 1]);
    }
}

/// Of a run of bad readings only the first is reported.
pub proof fn law_trouble_is_reported_once(
    s: Sensor,
    readings: Seq<Result<Binary64, String>>,
    range: [Binary64; 2],
    grace: u32,
    i: int,
)
    requires
        s.consecutive_bad == 0,
        !s.failed,
        0 <= i < readings.len() < u32::MAX,
        forall|j: int|
            0 <= j < readings.len() ==> reading_problem(#[trigger] readings[j], range) is Some,
    ensures
        sampled_over(s, readings.take(i), range, grace).sample_report(readings[i], range) == (if i
            == 0 {
            reading_problem(readings[0], range)
        } else {
            None
        }),
{
    let run = readings.take(i);
    assert forall|j: int| 0 <= j < run.len() implies reading_problem(
        #[trigger] run[j],
        range,
    ) is Some by {
        assert(run[j] == readings[j]);
    }
    law_a_bad_sensor_fails_after_the_grace_period(s, run, range, grace);
}

/// A reading is a temperature exactly where it lies in the range that it is held to, both ends
/// of it taken in.
pub proof fn law_a_reading_is_plausible_within_the_range(range: [Binary64; 2], t: Datum)
    ensures
        crate::control::is_plausible(range, t) <==> {
            &&& !(range@[0]@ is Nan) && !(range@[1]@ is Nan) && !(t is Nan)
            &&& range@[0]@.place() <= t.place() <= range@[1]@.place()
        },
{
}

/// A sample changes the last good reading exactly where the reading lies in the range that it is
/// held to, and then clears all trouble. Every other reading, below the range or above it or no
/// number at all, and every failure to read, counts as one more bad one and changes nothing else;
/// the sensor fails once there are more of them in a row than the grace period has polls, and
/// stays failed. The first bad one in a row is reported, with what was wrong, and no other.
pub proof fn law_a_sample_counts_where_it_lies_in_the_range(
    s: Sensor,
    reading: Result<Binary64, String>,
    range: [Binary64; 2],
    grace: u32,
)
    requires
        s.consecutive_bad < u32::MAX,
    ensures
        ({
            let after = s.sampled(reading, range, grace);
            let good = match reading {
                Ok(t) => {
                    &&& !(range@[0]@ is Nan) && !(range@[1]@ is Nan) && !(t@ is Nan)
                    &&& range@[0]@.place() <= t@.place() <= range@[1]@.place()
                },
                Err(_) => false,
            };
            &&& after.cfg == s.cfg
            &&& after.path == s.path
            &&& after.integral == s.integral
            &&& good ==> {
                &&& after.last_good == Some(reading->Ok_0)
                &&& after.consecutive_bad == 0
                &&& !after.failed
                &&& s.sample_report(reading, range) is None
            }
            &&& !good ==> {
                &&& after.last_good == s.last_good
                &&& after.consecutive_bad == s.consecutive_bad + 1
                &&& after.failed == (s.failed || s.consecutive_bad + 1 > grace)
                &&& s.sample_report(reading, range) == (if s.consecutive_bad > 0 {
                    None
                } else {
                    match reading {
                        Ok(t) => Some(Problem::Implausible(t)),
                        Err(e) => Some(Problem::Unreadable(e)),
                    }
                })
            }
        }),
{
}

/// One plausible reading brings a sensor back.
pub proof fn law_a_good_reading_brings_a_sensor_back(
    s: Sensor,
    t: Binary64,
    range: [Binary64; 2],
    grace: u32,
)
    requires
        crate::control::is_plausible(range, t@),
    ensures
        s.sampled(Ok(t), range, grace) == (Sensor {
            last_good: Some(t),
            consecutive_bad: 0,
            failed: false,
            ..s
        }),
{
}

/// Of several sensors that demand the highest speed, an urgent one gives the reason, the last of
/// them where there are more; without one the first of them does; and where nothing is demanded
/// above the floor, and nothing is urgent, the reason is idleness.
pub proof fn law_the_reason_is_that_of_an_urgent_sensor_or_of_the_first(
    sensors: Seq<Sensor>,
    dt: Datum,
    min: Datum,
    max: Datum,
    i: int,
)
    requires
        min.le(max),
        0 <= i < sensors.len(),
        !(sensors[i].demanded(dt, min, max).0 is Nan),
        sensors[i].demanded(dt, min, max).0.place() == prevailing(sensors, dt, min, max).0.place(),
    ensures
        ({
            let top = prevailing(sensors, dt, min, max);
            let mine = sensors[i].demanded(dt, min, max);
            let as_high = |k: int|
                {
                    &&& !(sensors[k].demanded(dt, min, max).0 is Nan)
                    &&& sensors[k].demanded(dt, min, max).0.place() == top.0.place()
                };
            let is_urgent = |k: int|
                {
                    ||| sensors[k].demanded(dt, min, max).1 is Critical
                    ||| sensors[k].demanded(dt, min, max).1 is Failed
                };
            &&& is_urgent(i) && (forall|k: int|
                i < k < sensors.len() ==> !(#[trigger] as_high(k) && is_urgent(k))) ==> top == mine
            &&& (forall|k: int| 0 <= k < sensors.len() && #[trigger] as_high(k) ==> !is_urgent(k))
                ==> {
                &&& top.0.place() > min.place() && (forall|k: int|
                    0 <= k < i ==> !#[trigger] as_high(k)) ==> top == mine
                &&& top.0.place() == min.place() ==> top == (min, Reason::Idle)
            }
        }),
    decreases sensors.len(),
{
    let rest = sensors.drop_last();
    let n = sensors.len() - 1;
    let top = prevailing(sensors, dt, min, max);
    let best = prevailing(rest, dt, min, max);
    let last = sensors[n].demanded(dt, min, max);
    let as_high = |k: int|
        {
            &&& !(sensors[k].demanded(dt, min, max).0 is Nan)
            &&& sensors[k].demanded(dt, min, max).0.place() == top.0.place()
        };
    let is_urgent = |k: int|
        {
            ||| sensors[k].demanded(dt, min, max).1 is Critical
            ||| sensors[k].demanded(dt, min, max).1 is Failed
        };
    lemma_prevailing_in_range(rest, dt, min, max);
    assert(sensors.last() == sensors[n]);
    assert forall|k: int| 0 <= k < rest.len() implies rest[k] == sensors[k] by {}
    if i < n {
        law_the_highest_demand_prevails(rest, dt, min, max, i);
        if best.0.place() == top.0.place() {
            law_the_reason_is_that_of_an_urgent_sensor_or_of_the_first(rest, dt, min, max, i);
            let rest_high = |k: int|
                {
                    &&& !(rest[k].demanded(dt, min, max).0 is Nan)
                    &&& rest[k].demanded(dt, min, max).0.place() == best.0.place()
                };
            let rest_urgent = |k: int|
                {
                    ||| rest[k].demanded(dt, min, max).1 is Critical
                    ||| rest[k].demanded(dt, min, max).1 is Failed
                };
            assert forall|k: int| 0 <= k < rest.len() implies rest_high(k) == #[trigger] as_high(
                k,
            ) && rest_urgent(k) == is_urgent(k) by {}
            if is_urgent(i) && (forall|k: int|
                i < k < sensors.len() ==> !(#[trigger] as_high(k) && is_urgent(k))) {
                assert(!(as_high(n) && is_urgent(n)));
                assert forall|k: int| i < k < rest.len() implies !(#[trigger] rest_high(k)
                    && rest_urgent(k)) by {
                    assert(!(as_high(k) && is_urgent(k)));
                }
            }
            if forall|k: int| 0 <= k < sensors.len() && #[trigger] as_high(k) ==> !is_urgent(k) {
                assert(as_high(n) ==> !is_urgent(n));
                assert forall|k: int| 0 <= k < rest.len() && #[trigger] rest_high(
                    k,
                ) implies !rest_urgent(k) by {
                    assert(as_high(k));
                }
                if forall|k: int| 0 <= k < i ==> !#[trigger] as_high(k) {
                    assert forall|k: int| 0 <= k < i implies !#[trigger] rest_high(k) by {
                        assert(!as_high(k));
                    }
                }
            }
        }
    } else {
        assert(as_high(n));
        if forall|k: int| 0 <= k < sensors.len() && #[trigger] as_high(k) ==> !is_urgent(k) {
            assert(!is_urgent(n));
            if best.0.place() == top.0.place() && rest.len() > 0 {
                // Another one is as high already, or nothing is demanded.
                law_the_highest_demand_prevails(rest, dt, min, max, 0);
                if best != (min, Reason::Idle) {
                    let j = choose|j: int|
                        0 <= j < rest.len() && best == (#[trigger] rest[j]).demanded(dt, min, max);
                    assert(sensors[j] == rest[j]);
                    assert(as_high(j));
                    let rest_high = |k: int|
                        {
                            &&& !(rest[k].demanded(dt, min, max).0 is Nan)
                            &&& rest[k].demanded(dt, min, max).0.place() == best.0.place()
                        };
                    let rest_urgent = |k: int|
                        {
                            ||| rest[k].demanded(dt, min, max).1 is Critical
                            ||| rest[k].demanded(dt, min, max).1 is Failed
                        };
                    assert forall|k: int| 0 <= k < rest.len() && #[trigger] rest_high(
                        k,
                    ) implies !rest_urgent(k) by {
                        assert(rest[k] == sensors[k]);
                        assert(as_high(k));
                    }
                    law_the_reason_is_that_of_an_urgent_sensor_or_of_the_first(
                        rest,
                        dt,
                        min,
                        max,
                        j,
                    );
                }
            }
        }
    }
}

/// A poll reports each sensor that goes bad, once, under its key and in the order of the sensors,
/// and no other: `which` are the sensors that the reports are of.
pub proof fn law_each_sensor_that_goes_bad_is_reported(
    sensors: Seq<Sensor>,
    readings: Seq<Result<Binary64, String>>,
    range: [Binary64; 2],
) -> (which: Seq<int>)
    ensures
        ({
            let reports = sample_reports(sensors, readings, range);
            &&& which.len() == reports.len()
            &&& forall|k: int|
                0 <= k < which.len() ==> {
                    &&& 0 <= #[trigger] which[k] < sensors.len()
                    &&& sensors[which[k]].sample_report(readings[which[k]], range) == Some(
                        reports[k].1,
                    )
                    &&& reports[k].0 == sensors[which[k]].cfg.key
                }
            &&& forall|j: int, k: int|
                0 <= j < k < which.len() ==> #[trigger] which[j] < #[trigger] which[k]
            &&& forall|i: int|
                0 <= i < sensors.len() && (#[trigger] sensors[i]).sample_report(
                    readings[i],
                    range,
                ) is Some ==> which.contains(i)
        }),
    decreases sensors.len(),
{
    if sensors.len() == 0 {
        Seq::empty()
    } else {
        let rest = sensors.drop_last();
        let n = sensors.len() - 1;
        let before = law_each_sensor_that_goes_bad_is_reported(rest, readings, range);
        assert(sensors.last() == sensors[n]);
        let reports = sample_reports(sensors, readings, range);
        let earlier = sample_reports(rest, readings, range);
        if sensors[n].sample_report(readings[n], range) is Some {
            let which = before.push(n);
            assert forall|i: int|
                0 <= i < sensors.len() && (#[trigger] sensors[i]).sample_report(
                    readings[i],
                    range,
                ) is Some implies which.contains(i) by {
                if i < n {
                    assert(rest[i] == sensors[i]);
                    let k = before.index_of(i);
                    assert(which[k] == i);
                } else {
                    assert(which[before.len() as int] == n);
                }
            }
            assert forall|k: int| 0 <= k < which.len() implies {
                &&& 0 <= #[trigger] which[k] < sensors.len()
                &&& sensors[which[k]].sample_report(readings[which[k]], range) == Some(
                    reports[k].1,
                )
                &&& reports[k].0 == sensors[which[k]].cfg.key
            } by {
                if k < before.len() {
                    assert(which[k] == before[k]);
                    assert(rest[before[k]] == sensors[before[k]]);
                    assert(reports[k] == earlier[k]);
                }
            }
            assert forall|j: int, k: int| 0 <= j < k < which.len() implies #[trigger] which[j]
                < #[trigger] which[k] by {
                if k < before.len() {
                    assert(before[j] < before[k]);
                } else {
                    assert(0 <= before[j] < rest.len());
                }
            }
            which
        } else {
            assert forall|i: int|
                0 <= i < sensors.len() && (#[trigger] sensors[i]).sample_report(
                    readings[i],
                    range,
                ) is Some implies before.contains(i) by {
                assert(rest[i] == sensors[i]);
            }
            assert forall|k: int| 0 <= k < before.len() implies {
                &&& 0 <= #[trigger] before[k] < sensors.len()
                &&& sensors[before[k]].sample_report(readings[before[k]], range) == Some(
                    reports[k].1,
                )
                &&& reports[k].0 == sensors[before[k]].cfg.key
            } by {
                assert(rest[before[k]] == sensors[before[k]]);
            }
            before
        }
    }
}

/// A step changes nothing but the speed and the integrals: settings that are the same are the
/// same one by one, and so is all of a sensor that only its integral may tell apart.
pub proof fn law_what_stays_the_same(a: Governor, b: Governor, s: Sensor, t: Sensor)
    ensures
        a.same_settings(b) <==> {
            &&& a.min_rpm == b.min_rpm
            &&& a.max_rpm == b.max_rpm
            &&& a.ramp_up == b.ramp_up
            &&& a.ramp_down == b.ramp_down
            &&& a.plausible == b.plausible
            &&& a.grace == b.grace
        },
        s.same_but_integral(t) <==> {
            &&& s.cfg == t.cfg
            &&& s.path == t.path
            &&& s.last_good == t.last_good
            &&& s.consecutive_bad == t.consecutive_bad
            &&& s.failed == t.failed
        },
{
}

/// What each reason says, and that two reasons are the same exactly where they are of one kind
/// and of the same sensor. Those that brook no delay are the critical and the failed ones.
pub proof fn law_reasons_are_told_apart(a: Reason, b: Reason)
    ensures
        a.is_urgent() <==> (a is Critical || a is Failed),
        a.words() == (match a {
            Reason::Idle => "every sensor cold enough to ask for nothing"@,
            Reason::Steering(k) => "steering on "@ + k@,
            Reason::Critical(k) => k@ + " above critical"@,
            Reason::Failed(k) => k@ + " unreadable, failing safe"@,
        }),
        a.same_as(b) <==> {
            ||| a is Idle && b is Idle
            ||| a is Steering && b is Steering && a->Steering_0@ == b->Steering_0@
            ||| a is Critical && b is Critical && a->Critical_0@ == b->Critical_0@
            ||| a is Failed && b is Failed && a->Failed_0@ == b->Failed_0@
        },
{
}

/// Which sensors fail safe: those that have failed and those that never read. Which are critical:
/// those of the others that last read their critical temperature or more. And what a governor must
/// hold to: a finite speed range that is not reversed, with the speed last commanded in it.
pub proof fn law_who_is_in_trouble(s: Sensor, g: Governor)
    ensures
        s.fails_safe() <==> s.failed || s.last_good is None,
        s.is_critical() <==> {
            &&& !s.failed
            &&& s.last_good is Some
            &&& !(s.cfg.critical@ is Nan)
            &&& !(s.last_good->0@ is Nan)
            &&& s.cfg.critical@.place() <= s.last_good->0@.place()
        },
        g.valid() <==> {
            &&& g.min_rpm@ is Finite && g.max_rpm@ is Finite && !(g.current@ is Nan)
            &&& g.min_rpm@.place() <= g.current@.place() <= g.max_rpm@.place()
        },
{
}

/// A governor can step where it may: over a time and with ramps that are finite and not negative,
/// whatever the sensors demand.
pub proof fn law_a_governor_steps_forward_in_time(g: Governor, dt: Datum)
    requires
        g.ramp_up@ is Finite,
        g.ramp_down@ is Finite,
        dt is Finite,
        g.ramp_up@.place() >= 0,
        g.ramp_down@.place() >= 0,
        dt.place() >= 0,
    ensures
        g.limits(dt),
        g.takes(dt),
{
    lemma_product_sign_known(g.ramp_up@, dt);
    lemma_product_sign_known(g.ramp_down@, dt);
}

/// What is wrong with a reading: that it could not be taken, and why; or that it does not lie in
/// the range that it is held to, and what it is. There is nothing wrong with any other.
pub proof fn law_what_is_wrong_with_a_reading(
    reading: Result<Binary64, String>,
    range: [Binary64; 2],
)
    ensures
        reading matches Err(e) ==> reading_problem(reading, range) == Some(Problem::Unreadable(e)),
        reading matches Ok(t) ==> reading_problem(reading, range) == (if !(range@[0]@ is Nan) && !(
        range@[1]@ is Nan) && !(t@ is Nan) && range@[0]@.place() <= t@.place() <= range@[1]@.place() {
            None
        } else {
            Some(Problem::Implausible(t))
        }),
{
}

} // verus!
