//! The control policy: one PI controller per sensor, and the fans run at whichever of them
//! is asking for the most.
//!
//! Taking the maximum rather than an average is the whole point of the design. A daemon that
//! averages, or that reads only the CPU package, sits at a comfortable speed while some other
//! sensor bakes.
use crate::binary64::Binary64;
use crate::config::{Config, SensorConfig};
use crate::datum::{lemma_whole_order, Datum};
use crate::order::{
    lemma_minus_sign, lemma_plus_commutes, lemma_plus_number, lemma_proper, lemma_whole_proper,
};
use crate::text::joined;
use vstd::prelude::*;

verus! {

/// Why the fans are at the speed they are.
#[derive(Debug, PartialEq, Eq)]
pub enum Reason {
    /// Every sensor is below the temperature at which it starts asking for air.
    Idle,
    /// A sensor asks for this speed.
    Steering(String),
    /// A sensor is at or above its critical temperature.
    Critical(String),
    /// A sensor stopped reading.
    Failed(String),
}

impl Clone for Reason {
    fn clone(&self) -> (r: Reason)
        ensures
            r == *self,
    {
        match self {
            Reason::Idle => Reason::Idle,
            Reason::Steering(k) => Reason::Steering(k.clone()),
            Reason::Critical(k) => Reason::Critical(k.clone()),
            Reason::Failed(k) => Reason::Failed(k.clone()),
        }
    }
}

impl Reason {
    /// A reason that brooks no delay.
    pub open spec fn is_urgent(self) -> bool {
        self is Critical || self is Failed
    }

    /// Whether the reason brooks no delay.
    pub fn urgent(&self) -> (r: bool)
        ensures
            r == self.is_urgent(),
    {
        match self {
            Reason::Critical(_) => true,
            Reason::Failed(_) => true,
            _ => false,
        }
    }

    /// The reason in words.
    pub open spec fn words(self) -> Seq<char> {
        match self {
            Reason::Idle => "every sensor cold enough to ask for nothing"@,
            Reason::Steering(k) => "steering on "@ + k@,
            Reason::Critical(k) => k@ + " above critical"@,
            Reason::Failed(k) => k@ + " unreadable, failing safe"@,
        }
    }

    /// The reason in words.
    pub fn describe(&self) -> (r: String)
        ensures
            r@ == self.words(),
    {
        match self {
            Reason::Idle => "every sensor cold enough to ask for nothing".to_owned(),
            Reason::Steering(k) => joined("steering on ", k.as_str()),
            Reason::Critical(k) => joined(k.as_str(), " above critical"),
            Reason::Failed(k) => joined(k.as_str(), " unreadable, failing safe"),
        }
    }

    /// That two reasons are the same, with the same sensor.
    pub open spec fn same_as(self, other: Reason) -> bool {
        match (self, other) {
            (Reason::Idle, Reason::Idle) => true,
            (Reason::Steering(a), Reason::Steering(b)) => a@ == b@,
            (Reason::Critical(a), Reason::Critical(b)) => a@ == b@,
            (Reason::Failed(a), Reason::Failed(b)) => a@ == b@,
            _ => false,
        }
    }

    /// Whether two reasons are the same, with the same sensor.
    pub fn same(&self, other: &Reason) -> (r: bool)
        ensures
            r == self.same_as(*other),
    {
        match (self, other) {
            (Reason::Idle, Reason::Idle) => true,
            (Reason::Steering(a), Reason::Steering(b)) => *a == *b,
            (Reason::Critical(a), Reason::Critical(b)) => *a == *b,
            (Reason::Failed(a), Reason::Failed(b)) => *a == *b,
            _ => false,
        }
    }
}

/// What is wrong with a sample.
#[derive(Debug)]
pub enum Problem {
    /// The sensor did not read.
    Unreadable(String),
    /// The sensor read this, which is no temperature.
    Implausible(Binary64),
}

/// That a reading lies in the plausible range.
pub open spec fn is_plausible(range: [Binary64; 2], t: Datum) -> bool {
    range@[0]@.le(t) && t.le(range@[1]@)
}

/// Whether a reading lies in the plausible range.
pub fn plausible(range: [Binary64; 2], t: Binary64) -> (r: bool)
    ensures
        r == is_plausible(range, t@),
{
    range[0].le(t) && t.le(range[1])
}

/// A sensor and the state of its controller.
pub struct Sensor {
    pub cfg: SensorConfig,
    /// Where the sensor is read.
    pub path: String,
    /// The integral term, in rpm above the floor.
    pub integral: Binary64,
    /// The last reading that was plausible.
    pub last_good: Option<Binary64>,
    pub consecutive_bad: u32,
    /// Set once the sensor has been unreadable for longer than the grace period.
    pub failed: bool,
}

/// The problem with a reading, if there is one.
pub open spec fn reading_problem(
    reading: Result<Binary64, String>,
    range: [Binary64; 2],
) -> Option<Problem> {
    match reading {
        Err(e) => Some(Problem::Unreadable(e)),
        Ok(t) => if is_plausible(range, t@) {
            None
        } else {
            Some(Problem::Implausible(t))
        },
    }
}

impl Sensor {
    /// The sensor once it has taken a reading.
    pub open spec fn sampled(
        self,
        reading: Result<Binary64, String>,
        range: [Binary64; 2],
        grace: u32,
    ) -> Sensor {
        if reading_problem(reading, range) is None {
            Sensor { last_good: Some(reading->Ok_0), consecutive_bad: 0, failed: false, ..self }
        } else {
            let bad = (self.consecutive_bad + 1) as u32;
            Sensor { consecutive_bad: bad, failed: self.failed || bad > grace, ..self }
        }
    }

    /// What is to be reported of a reading: its problem, on the way into trouble only.
    pub open spec fn sample_report(
        self,
        reading: Result<Binary64, String>,
        range: [Binary64; 2],
    ) -> Option<Problem> {
        if self.consecutive_bad == 0 {
            reading_problem(reading, range)
        } else {
            None
        }
    }

    /// A sensor that has not been read yet.
    pub fn new(cfg: SensorConfig, path: &str) -> (r: Sensor)
        ensures
            r.cfg == cfg,
            r.path@ == path@,
            r.integral@ == Datum::whole(0),
            r.last_good is None,
            r.consecutive_bad == 0,
            !r.failed,
    {
        Sensor {
            cfg,
            path: path.to_owned(),
            integral: Binary64::from_u32(0),
            last_good: None,
            consecutive_bad: 0,
            failed: false,
        }
    }

    /// Primes the controller with a first reading.
    pub fn seed(&mut self, temp: Binary64)
        ensures
            *final(self) == (Sensor { last_good: Some(temp), ..*old(self) }),
    {
        self.last_good = Some(temp);
    }

    /// The label of the sensor.
    pub fn key(&self) -> (r: &str)
        ensures
            r@ == self.cfg.key@,
    {
        self.cfg.key.as_str()
    }

    /// The last reading that was plausible.
    pub fn last_reading(&self) -> (r: Option<Binary64>)
        ensures
            r == self.last_good,
    {
        self.last_good
    }

    /// Whether the sensor has been unreadable for longer than the grace period.
    pub fn is_failed(&self) -> (r: bool)
        ensures
            r == self.failed,
    {
        self.failed
    }

    /// Takes one reading, riding out trouble on the last good one, and reports the problem on
    /// the way into it.
    pub fn sample(
        &mut self,
        reading: Result<Binary64, String>,
        range: [Binary64; 2],
        grace: u32,
    ) -> (r: Option<Problem>)
        requires
            reading_problem(reading, range) is Some ==> old(self).consecutive_bad < u32::MAX,
        ensures
            *final(self) == old(self).sampled(reading, range, grace),
            r == old(self).sample_report(reading, range),
    {
        let problem: Option<Problem> = match reading {
            Err(e) => Some(Problem::Unreadable(e)),
            Ok(t) => {
                if plausible(range, t) {
                    self.last_good = Some(t);
                    self.consecutive_bad = 0;
                    self.failed = false;
                    None
                } else {
                    Some(Problem::Implausible(t))
                }
            },
        };
        if problem.is_some() {
            self.consecutive_bad = self.consecutive_bad + 1;
            if self.consecutive_bad > grace {
                self.failed = true;
            }
        }
        if self.consecutive_bad == 1 {
            problem
        } else {
            None
        }
    }
}

/// The speed that a sensor asks for on temperature alone: a ramp from `min` at
/// `baseline_from` to `max` at `critical`.
pub open spec fn baseline_of(cfg: SensorConfig, temp: Datum, min: Datum, max: Datum) -> Datum {
    let span = cfg.critical@.minus(cfg.baseline_from@);
    let fraction = temp.minus(cfg.baseline_from@).over(span).held(
        Datum::whole(0),
        Datum::whole(1),
    );
    min.plus(fraction.times(max.minus(min)))
}

/// The most that the integral term of a sensor may add.
pub open spec fn ceiling_of(cfg: SensorConfig, min: Datum, max: Datum) -> Datum {
    let span = max.minus(min);
    match cfg.integral_limit_rpm {
        Some(limit) => Datum::whole(limit as int).smaller(span),
        None => span,
    }
}

/// The integral term after `dt` seconds at `temp`.
pub open spec fn integral_of(
    cfg: SensorConfig,
    integral: Datum,
    temp: Datum,
    dt: Datum,
    min: Datum,
    max: Datum,
) -> Datum {
    let error = temp.minus(cfg.target@);
    integral.plus(cfg.ki@.times(error).times(dt)).held(Datum::whole(0), ceiling_of(cfg, min, max))
}

/// The speed that the controller asks for, or the ramp where that asks for more; not yet held
/// to the range.
pub open spec fn wanted(
    cfg: SensorConfig,
    integral: Datum,
    temp: Datum,
    dt: Datum,
    min: Datum,
    max: Datum,
) -> Datum {
    let error = temp.minus(cfg.target@);
    min.plus(cfg.kp@.times(error)).plus(integral_of(cfg, integral, temp, dt, min, max)).larger(
        baseline_of(cfg, temp, min, max),
    )
}

impl Sensor {
    /// That the sensor fails safe: it has failed, or has never read.
    pub open spec fn fails_safe(self) -> bool {
        self.failed || self.last_good is None
    }

    /// That the sensor is at or above its critical temperature.
    pub open spec fn is_critical(self) -> bool {
        !self.fails_safe() && self.cfg.critical@.le(self.last_good->0@)
    }

    /// The speed the sensor demands over the next `dt` seconds, and why.
    pub open spec fn demanded(self, dt: Datum, min: Datum, max: Datum) -> (Datum, Reason) {
        if self.fails_safe() {
            (max, Reason::Failed(self.cfg.key))
        } else if self.is_critical() {
            (max, Reason::Critical(self.cfg.key))
        } else {
            let rpm = wanted(self.cfg, self.integral@, self.last_good->0@, dt, min, max);
            (
                rpm.held(min, max),
                if rpm.le(min) {
                    Reason::Idle
                } else {
                    Reason::Steering(self.cfg.key)
                },
            )
        }
    }

    /// The integral term once the sensor has been asked for its demand. A sensor that fails
    /// safe or is critical leaves it exactly as it was.
    pub open spec fn integral_after(self, dt: Datum, min: Datum, max: Datum) -> Datum {
        if self.fails_safe() || self.is_critical() {
            self.integral@
        } else {
            integral_of(self.cfg, self.integral@, self.last_good->0@, dt, min, max)
        }
    }

    /// That only the integral term may differ.
    pub open spec fn same_but_integral(self, other: Sensor) -> bool {
        self == (Sensor { integral: self.integral, ..other })
    }

    /// The speed the sensor asks for on temperature alone.
    pub fn baseline(&self, temp: Binary64, min_rpm: Binary64, max_rpm: Binary64) -> (r: Binary64)
        ensures
            r@ == baseline_of(self.cfg, temp@, min_rpm@, max_rpm@),
    {
        let nought: Binary64 = Binary64::from_u32(0);
        let one: Binary64 = Binary64::from_u32(1);
        proof {
            lemma_whole_order(0, 1);
        }
        let span: Binary64 = self.cfg.critical.minus(self.cfg.baseline_from);
        let fraction: Binary64 = temp.minus(self.cfg.baseline_from).over(span).held(nought, one);
        min_rpm.plus(fraction.times(max_rpm.minus(min_rpm)))
    }

    /// The most that the integral term may add.
    pub fn integral_ceiling(&self, min_rpm: Binary64, max_rpm: Binary64) -> (r: Binary64)
        ensures
            r@ == ceiling_of(self.cfg, min_rpm@, max_rpm@),
    {
        let span: Binary64 = max_rpm.minus(min_rpm);
        match self.cfg.integral_limit_rpm {
            Some(limit) => Binary64::from_u32(limit).smaller(span),
            None => span,
        }
    }

    /// The speed the sensor demands, and why.
    pub fn demand(&mut self, dt: Binary64, min_rpm: Binary64, max_rpm: Binary64) -> (r: (
        Binary64,
        Reason,
    ))
        requires
            old(self).fails_safe() || old(self).is_critical() || min_rpm@.le(max_rpm@),
            old(self).fails_safe() || old(self).is_critical() || Datum::whole(0).le(
                ceiling_of(old(self).cfg, min_rpm@, max_rpm@),
            ),
        ensures
            (r.0@, r.1) == old(self).demanded(dt@, min_rpm@, max_rpm@),
            final(self).same_but_integral(*old(self)),
            final(self).integral@ == old(self).integral_after(dt@, min_rpm@, max_rpm@),
    {
        if self.failed {
            return (max_rpm, Reason::Failed(self.cfg.key.clone()));
        }
        let temp: Binary64 = match self.last_good {
            Some(t) => t,
            None => {
                return (max_rpm, Reason::Failed(self.cfg.key.clone()));
            },
        };
        if self.cfg.critical.le(temp) {
            return (max_rpm, Reason::Critical(self.cfg.key.clone()));
        }
        let error: Binary64 = temp.minus(self.cfg.target);
        let nought: Binary64 = Binary64::from_u32(0);
        let ceiling: Binary64 = self.integral_ceiling(min_rpm, max_rpm);
        self.integral = self.integral.plus(self.cfg.ki.times(error).times(dt)).held(
            nought,
            ceiling,
        );
        let rpm: Binary64 = min_rpm.plus(self.cfg.kp.times(error)).plus(self.integral).larger(
            self.baseline(temp, min_rpm, max_rpm),
        );
        let reason: Reason = if rpm.le(min_rpm) {
            Reason::Idle
        } else {
            Reason::Steering(self.cfg.key.clone())
        };
        (rpm.held(min_rpm, max_rpm), reason)
    }
}

/// What the integral term may add is not negative, and no more than the limit and the range.
pub proof fn lemma_ceiling(cfg: SensorConfig, min: Datum, max: Datum)
    requires
        min.is_finite(),
        max.is_finite(),
        min.le(max),
    ensures
        Datum::whole(0).le(ceiling_of(cfg, min, max)),
        ceiling_of(cfg, min, max).proper(),
        ceiling_of(cfg, min, max).le(max.minus(min)),
        cfg.integral_limit_rpm matches Some(limit) ==> ceiling_of(cfg, min, max).le(
            Datum::whole(limit as int),
        ),
{
    lemma_minus_sign(max, min);
    lemma_whole_order(0, 0);
    if let Some(limit) = cfg.integral_limit_rpm {
        lemma_whole_order(0, limit as int);
        lemma_whole_proper(limit as int);
    }
}

/// The commanded speed for one poll.
#[derive(Debug)]
pub struct Command {
    pub rpm: u32,
    pub reason: Reason,
}

impl Clone for Command {
    fn clone(&self) -> (r: Command)
        ensures
            r == *self,
    {
        Command { rpm: self.rpm, reason: self.reason.clone() }
    }
}

/// Turns sensor readings into a fan speed, with rate limiting.
pub struct Governor {
    pub sensors: Vec<Sensor>,
    pub min_rpm: Binary64,
    pub max_rpm: Binary64,
    pub ramp_up: Binary64,
    pub ramp_down: Binary64,
    pub plausible: [Binary64; 2],
    pub grace: u32,
    /// The speed last commanded, which the rate limit works from.
    pub current: Binary64,
}

/// That one demand outranks another: it is larger, or as large and urgent.
pub open spec fn outranks(d: (Datum, Reason), best: (Datum, Reason)) -> bool {
    best.0.lt(d.0) || (best.0.le(d.0) && d.1.is_urgent())
}

/// The demand that prevails among those of a list of sensors: the highest, and among those as
/// high the last urgent one, or else the first.
pub open spec fn prevailing(sensors: Seq<Sensor>, dt: Datum, min: Datum, max: Datum) -> (
    Datum,
    Reason,
)
    decreases sensors.len(),
{
    if sensors.len() == 0 {
        (min, Reason::Idle)
    } else {
        let best = prevailing(sensors.drop_last(), dt, min, max);
        let d = sensors.last().demanded(dt, min, max);
        if outranks(d, best) {
            d
        } else {
            best
        }
    }
}

/// The speed after `dt` seconds on the way from `current` to `target`.
pub open spec fn approached(
    current: Datum,
    target: Datum,
    urgent: bool,
    ramp_up: Datum,
    ramp_down: Datum,
    dt: Datum,
    min: Datum,
    max: Datum,
) -> Datum {
    if urgent && current.lt(target) {
        target.held(min, max)
    } else {
        let ramp = if current.lt(target) {
            ramp_up
        } else {
            ramp_down
        };
        let limit = ramp.times(dt);
        current.plus(target.minus(current).held(limit.negated(), limit)).held(min, max)
    }
}

impl Governor {
    /// That the speed range is one, and that the speed last commanded lies in it.
    pub open spec fn valid(self) -> bool {
        &&& self.min_rpm@.is_finite()
        &&& self.max_rpm@.is_finite()
        &&& self.min_rpm@.le(self.max_rpm@)
        &&& self.min_rpm@.le(self.current@)
        &&& self.current@.le(self.max_rpm@)
    }

    /// The demand that prevails.
    pub open spec fn verdict(self, dt: Datum) -> (Datum, Reason) {
        prevailing(self.sensors@, dt, self.min_rpm@, self.max_rpm@)
    }

    /// That a step over `dt` seconds is one: the rate limit, where it applies, is not less than
    /// nothing.
    pub open spec fn takes(self, dt: Datum) -> bool {
        let (target, reason) = self.verdict(dt);
        ||| reason.is_urgent() && self.current@.lt(target)
        ||| Datum::whole(0).le(
            (if self.current@.lt(target) {
                self.ramp_up@
            } else {
                self.ramp_down@
            }).times(dt),
        )
    }

    /// That neither rate limit over `dt` seconds is less than nothing, so that a step is one
    /// whatever the sensors demand.
    pub open spec fn limits(self, dt: Datum) -> bool {
        &&& Datum::whole(0).le(self.ramp_up@.times(dt))
        &&& Datum::whole(0).le(self.ramp_down@.times(dt))
    }

    /// The speed after a step over `dt` seconds.
    pub open spec fn speed_after(self, dt: Datum) -> Datum {
        let (target, reason) = self.verdict(dt);
        approached(
            self.current@,
            target,
            reason.is_urgent(),
            self.ramp_up@,
            self.ramp_down@,
            dt,
            self.min_rpm@,
            self.max_rpm@,
        )
    }

    /// That all settings are the same.
    pub open spec fn same_settings(self, other: Governor) -> bool {
        &&& self.min_rpm == other.min_rpm
        &&& self.max_rpm == other.max_rpm
        &&& self.ramp_up == other.ramp_up
        &&& self.ramp_down == other.ramp_down
        &&& self.plausible == other.plausible
        &&& self.grace == other.grace
    }

    /// A governor that takes over fans that run at `start_rpm`.
    pub fn new(config: &Config, sensors: Vec<Sensor>, min_rpm: u32, max_rpm: u32, start_rpm: u32)
        -> (r: Governor)
        requires
            min_rpm <= max_rpm,
        ensures
            r.valid(),
            r.sensors == sensors,
            r.min_rpm@ == Datum::whole(min_rpm as int),
            r.max_rpm@ == Datum::whole(max_rpm as int),
            r.ramp_up == config.ramp_up_rpm_per_s,
            r.ramp_down == config.ramp_down_rpm_per_s,
            r.plausible == config.plausible_range_c,
            r.grace == config.sensor_grace_polls,
            r.current@ == Datum::whole(
                if start_rpm < min_rpm {
                    min_rpm as int
                } else if start_rpm > max_rpm {
                    max_rpm as int
                } else {
                    start_rpm as int
                },
            ),
    {
        let start: u32 = if start_rpm < min_rpm {
            min_rpm
        } else if start_rpm > max_rpm {
            max_rpm
        } else {
            start_rpm
        };
        proof {
            lemma_whole_order(min_rpm as int, max_rpm as int);
            lemma_whole_order(min_rpm as int, start as int);
            lemma_whole_order(start as int, max_rpm as int);
        }
        Governor {
            sensors,
            min_rpm: Binary64::from_u32(min_rpm),
            max_rpm: Binary64::from_u32(max_rpm),
            ramp_up: config.ramp_up_rpm_per_s,
            ramp_down: config.ramp_down_rpm_per_s,
            plausible: config.plausible_range_c,
            grace: config.sensor_grace_polls,
            current: Binary64::from_u32(start),
        }
    }
}

/// What is to be reported of one reading of each sensor: the key and the problem of each that
/// goes bad.
pub open spec fn sample_reports(
    sensors: Seq<Sensor>,
    readings: Seq<Result<Binary64, String>>,
    range: [Binary64; 2],
) -> Seq<(String, Problem)>
    decreases sensors.len(),
{
    if sensors.len() == 0 {
        Seq::empty()
    } else {
        let rest = sample_reports(sensors.drop_last(), readings, range);
        match sensors.last().sample_report(readings[sensors.len() - 1], range) {
            Some(problem) => rest.push((sensors.last().cfg.key, problem)),
            None => rest,
        }
    }
}

/// The prevailing demand is a speed in the range.
pub proof fn lemma_prevailing_in_range(sensors: Seq<Sensor>, dt: Datum, min: Datum, max: Datum)
    requires
        min.le(max),
    ensures
        min.le(prevailing(sensors, dt, min, max).0),
        prevailing(sensors, dt, min, max).0.le(max),
    decreases sensors.len(),
{
    if sensors.len() > 0 {
        lemma_prevailing_in_range(sensors.drop_last(), dt, min, max);
    }
}

/// A datum between two finite data of the format is finite.
pub proof fn lemma_between_is_finite(x: Datum, low: Datum, high: Datum)
    requires
        low.is_finite(),
        low.proper(),
        high.is_finite(),
        high.proper(),
        low.le(x),
        x.le(high),
    ensures
        x.is_finite(),
{
}

/// The speed on the way to a target is one in the range.
pub proof fn lemma_approached_in_range(
    current: Datum,
    target: Datum,
    urgent: bool,
    ramp_up: Datum,
    ramp_down: Datum,
    dt: Datum,
    min: Datum,
    max: Datum,
)
    requires
        min.le(max),
        current.is_finite(),
        target.is_finite(),
        (urgent && current.lt(target)) || Datum::whole(0).le(
            (if current.lt(target) {
                ramp_up
            } else {
                ramp_down
            }).times(dt),
        ),
    ensures
        min.le(approached(current, target, urgent, ramp_up, ramp_down, dt, min, max)),
        approached(current, target, urgent, ramp_up, ramp_down, dt, min, max).le(max),
{
    lemma_minus_sign(target, current);
    let ramp = if current.lt(target) {
        ramp_up
    } else {
        ramp_down
    };
    if !(urgent && current.lt(target)) {
        let limit = ramp.times(dt);
        let change = target.minus(current).held(limit.negated(), limit);
        lemma_plus_number(change, current);
        lemma_plus_commutes(change, current);
    }
}

impl Governor {
    /// Whether a step over `dt` seconds is one whatever the sensors demand.
    pub fn can_step(&self, dt: Binary64) -> (r: bool)
        ensures
            r == self.limits(dt@),
            r ==> self.takes(dt@),
    {
        let nought: Binary64 = Binary64::from_u32(0);
        nought.le(self.ramp_up.times(dt)) && nought.le(self.ramp_down.times(dt))
    }

    /// Takes one reading of every sensor, in their order, and reports those that go bad.
    pub fn sample(&mut self, readings: &Vec<Result<Binary64, String>>) -> (r: Vec<
        (String, Problem),
    >)
        requires
            readings@.len() == old(self).sensors@.len(),
            forall|i: int|
                0 <= i < old(self).sensors@.len() && reading_problem(
                    readings@[i],
                    old(self).plausible,
                ) is Some ==> (#[trigger] old(self).sensors@[i]).consecutive_bad < u32::MAX,
        ensures
            final(self).same_settings(*old(self)),
            final(self).current == old(self).current,
            final(self).sensors@.len() == old(self).sensors@.len(),
            forall|i: int|
                0 <= i < old(self).sensors@.len() ==> #[trigger] final(self).sensors@[i] == old(
                    self,
                ).sensors@[i].sampled(readings@[i], old(self).plausible, old(self).grace),
            r@ == sample_reports(old(self).sensors@, readings@, old(self).plausible),
    {
        let mut reports: Vec<(String, Problem)> = Vec::new();
        let range: [Binary64; 2] = self.plausible;
        let grace: u32 = self.grace;
        let n: usize = self.sensors.len();
        let mut i: usize = 0;
        while i < n
            invariant
                i <= n,
                n == old(self).sensors@.len(),
                n == readings@.len(),
                self.sensors@.len() == n,
                self.same_settings(*old(self)),
                self.current == old(self).current,
                range == old(self).plausible,
                grace == old(self).grace,
                forall|j: int|
                    0 <= j < n && reading_problem(readings@[j], range) is Some ==> (
                    #[trigger] old(self).sensors@[j]).consecutive_bad < u32::MAX,
                forall|j: int|
                    i <= j < n ==> #[trigger] self.sensors@[j] == old(self).sensors@[j],
                forall|j: int|
                    0 <= j < i ==> #[trigger] self.sensors@[j] == old(self).sensors@[j].sampled(
                        readings@[j],
                        range,
                        grace,
                    ),
                reports@ == sample_reports(old(self).sensors@.take(i as int), readings@, range),
            decreases n - i,
        {
            let ghost all = old(self).sensors@;
            assert(all.take(i + 1).drop_last() =~= all.take(i as int));
            assert(all.take(i + 1).last() == all[i as int]);
            let reading: Result<Binary64, String> = match &readings[i] {
                Ok(t) => Ok(*t),
                Err(e) => Err(e.clone()),
            };
            let key: String = self.sensors[i].cfg.key.clone();
            assert(self.sensors@[i as int] == old(self).sensors@[i as int]);
            let report: Option<Problem> = self.sensors[i].sample(reading, range, grace);
            match report {
                Some(problem) => {
                    reports.push((key, problem));
                },
                None => {},
            }
            i += 1;
        }
        assert(old(self).sensors@.take(n as int) =~= old(self).sensors@);
        reports
    }

    /// Folds the sensors into one command. `dt` is the time since the last call, in seconds.
    pub fn step(&mut self, dt: Binary64) -> (r: Command)
        requires
            old(self).valid(),
            old(self).takes(dt@),
        ensures
            r.reason == old(self).verdict(dt@).1,
            r.rpm == old(self).speed_after(dt@).whole_u32(),
            final(self).current@ == old(self).speed_after(dt@),
            final(self).valid(),
            final(self).same_settings(*old(self)),
            final(self).sensors@.len() == old(self).sensors@.len(),
            forall|i: int|
                0 <= i < old(self).sensors@.len() ==> {
                    &&& (#[trigger] final(self).sensors@[i]).same_but_integral(
                        old(self).sensors@[i],
                    )
                    &&& final(self).sensors@[i].integral@ == old(self).sensors@[i].integral_after(
                        dt@,
                        old(self).min_rpm@,
                        old(self).max_rpm@,
                    )
                },
    {
        let min: Binary64 = self.min_rpm;
        let max: Binary64 = self.max_rpm;
        let n: usize = self.sensors.len();
        let mut best: (Binary64, Reason) = (min, Reason::Idle);
        let mut i: usize = 0;
        while i < n
            invariant
                i <= n,
                n == old(self).sensors@.len(),
                self.sensors@.len() == n,
                old(self).valid(),
                self.same_settings(*old(self)),
                self.current == old(self).current,
                min == old(self).min_rpm,
                max == old(self).max_rpm,
                forall|j: int|
                    i <= j < n ==> #[trigger] self.sensors@[j] == old(self).sensors@[j],
                forall|j: int|
                    0 <= j < i ==> {
                        &&& (#[trigger] self.sensors@[j]).same_but_integral(old(self).sensors@[j])
                        &&& self.sensors@[j].integral@ == old(self).sensors@[j].integral_after(
                            dt@,
                            min@,
                            max@,
                        )
                    },
                (best.0@, best.1) == prevailing(
                    old(self).sensors@.take(i as int),
                    dt@,
                    min@,
                    max@,
                ),
            decreases n - i,
        {
            let ghost all = old(self).sensors@;
            assert(all.take(i + 1).drop_last() =~= all.take(i as int));
            assert(all.take(i + 1).last() == all[i as int]);
            proof {
                lemma_ceiling(self.sensors@[i as int].cfg, min@, max@);
            }
            let (rpm, reason) = self.sensors[i].demand(dt, min, max);
            // An urgent sensor outranks a merely hot one even if the arithmetic ties, so that
            // the log names the urgent reason.
            if best.0.lt(rpm) || (best.0.le(rpm) && reason.urgent()) {
                best = (rpm, reason);
            }
            i += 1;
        }
        let (target, reason) = best;
        proof {
            let all = old(self).sensors@;
            assert(all.take(n as int) =~= all);
            lemma_proper(min);
            lemma_proper(max);
            lemma_prevailing_in_range(all, dt@, min@, max@);
            lemma_between_is_finite(target@, min@, max@);
            lemma_between_is_finite(self.current@, min@, max@);
            lemma_approached_in_range(
                self.current@,
                target@,
                reason.is_urgent(),
                self.ramp_up@,
                self.ramp_down@,
                dt@,
                min@,
                max@,
            );
        }
        // An emergency is not rate limited on the way up.
        let next: Binary64 = if reason.urgent() && self.current.lt(target) {
            target.held(min, max)
        } else {
            let ramp: Binary64 = if self.current.lt(target) {
                self.ramp_up
            } else {
                self.ramp_down
            };
            let limit: Binary64 = ramp.times(dt);
            assert(limit@.negated().le(limit@));
            self.current.plus(target.minus(self.current).held(limit.negated(), limit)).held(
                min,
                max,
            )
        };
        self.current = next;
        Command { rpm: next.whole_u32(), reason }
    }
}

} // verus!
