//! The configuration, the defaults it falls back to, and what makes it a valid one.
//!
//! The defaults are measured, not guessed. Every setting is optional, so a file that sets
//! nothing is a valid configuration that behaves exactly like no file at all.
use crate::binary64::Binary64;
use crate::datum::{lemma_whole_order, unit, Datum};
use crate::sysfs::Source;
use vstd::prelude::*;

verus! {

/// What the daemon is told by its operator.
#[derive(Debug)]
pub struct Config {
    /// How often to sample and command, in milliseconds.
    pub poll_interval_ms: u64,
    /// Ceiling on how fast the commanded speed may rise, in rpm per second.
    pub ramp_up_rpm_per_s: Binary64,
    /// Ceiling on how fast it may fall.
    pub ramp_down_rpm_per_s: Binary64,
    /// A change smaller than this is not written to the fan.
    pub deadband_rpm: u32,
    /// Narrows the speed range that the fans report; `None` takes their own bound.
    pub min_rpm: Option<u32>,
    pub max_rpm: Option<u32>,
    /// A reading outside this range, in degrees, is a misreport and no temperature.
    pub plausible_range_c: [Binary64; 2],
    /// How many consecutive bad samples are ridden out on the last good reading.
    pub sensor_grace_polls: u32,
    pub sensors: Vec<SensorConfig>,
}

/// How one sensor steers the fans.
#[derive(Debug)]
pub struct SensorConfig {
    pub source: Source,
    /// The label of the sensor, such as `TPCD` or `Package id 0`.
    pub key: String,
    /// The temperature at which the sensor starts asking for air.
    pub baseline_from: Binary64,
    /// The temperature the sensor is steered towards.
    pub target: Binary64,
    /// At or above this temperature the fans go straight to maximum.
    pub critical: Binary64,
    /// Proportional gain, in rpm per degree over target.
    pub kp: Binary64,
    /// Integral gain, in rpm per degree and second over target.
    pub ki: Binary64,
    /// Ceiling on what the integral term alone may add, in rpm; `None` is the whole range.
    pub integral_limit_rpm: Option<u32>,
    /// A sensor that need not exist.
    pub optional: bool,
}

impl Clone for Config {
    fn clone(&self) -> (r: Config)
        ensures
            r.same_as(*self),
    {
        let mut sensors: Vec<SensorConfig> = Vec::new();
        let mut i: usize = 0;
        while i < self.sensors.len()
            invariant
                i <= self.sensors@.len(),
                sensors@ == self.sensors@.take(i as int),
            decreases self.sensors@.len() - i,
        {
            sensors.push(self.sensors[i].clone());
            i += 1;
            assert(sensors@ =~= self.sensors@.take(i as int));
        }
        assert(self.sensors@.take(i as int) =~= self.sensors@);
        Config {
            poll_interval_ms: self.poll_interval_ms,
            ramp_up_rpm_per_s: self.ramp_up_rpm_per_s,
            ramp_down_rpm_per_s: self.ramp_down_rpm_per_s,
            deadband_rpm: self.deadband_rpm,
            min_rpm: self.min_rpm,
            max_rpm: self.max_rpm,
            plausible_range_c: self.plausible_range_c,
            sensor_grace_polls: self.sensor_grace_polls,
            sensors,
        }
    }
}

impl Config {
    /// That every setting is the same.
    pub open spec fn same_as(self, other: Config) -> bool {
        &&& self.sensors@ == other.sensors@
        &&& self == (Config { sensors: self.sensors, ..other })
    }
}

impl Clone for SensorConfig {
    fn clone(&self) -> (r: SensorConfig)
        ensures
            r == *self,
    {
        SensorConfig {
            source: self.source,
            key: self.key.clone(),
            baseline_from: self.baseline_from,
            target: self.target,
            critical: self.critical,
            kp: self.kp,
            ki: self.ki,
            integral_limit_rpm: self.integral_limit_rpm,
            optional: self.optional,
        }
    }
}

/// The settings of the daemon that must be finite numbers.
#[derive(Debug, Clone, Copy, PartialEq, Eq, Structural)]
pub enum Setting {
    RampUp,
    RampDown,
    PlausibleLow,
    PlausibleHigh,
}

/// The settings of a sensor that must be finite numbers.
#[derive(Debug, Clone, Copy, PartialEq, Eq, Structural)]
pub enum SensorSetting {
    BaselineFrom,
    Target,
    Critical,
    Kp,
    Ki,
}

/// What is wrong with the settings of a sensor.
#[derive(Debug)]
pub enum SensorProblem {
    NotFinite { setting: SensorSetting, value: Binary64 },
    BaselineNotBelowTarget { baseline_from: Binary64, target: Binary64 },
    TargetNotBelowCritical { target: Binary64, critical: Binary64 },
    /// The ramp would start below any temperature that the sensor can legibly read.
    BaselineBelowRange { baseline_from: Binary64, low: Binary64 },
    /// The sensor could never be steered on.
    CriticalAboveRange { critical: Binary64, high: Binary64 },
    /// An integral gain together with a limit of nothing.
    ZeroIntegralLimit,
    /// A gain below zero would cool by heating.
    NegativeGain,
}

/// What is wrong with a configuration.
#[derive(Debug)]
pub enum ConfigError {
    ZeroPollInterval,
    NotFinite { setting: Setting, value: Binary64 },
    RampNotPositive,
    RangeReversed { low: Binary64, high: Binary64 },
    SpeedsReversed { min: u32, max: u32 },
    NoSensors,
    Sensor { key: String, problem: SensorProblem },
}

impl Setting {
    /// The name of the setting in a configuration file.
    pub fn name(self) -> (r: &'static str)
        ensures
            r@ == (match self {
                Setting::RampUp => "ramp_up_rpm_per_s"@,
                Setting::RampDown => "ramp_down_rpm_per_s"@,
                Setting::PlausibleLow => "plausible_range_c[0]"@,
                Setting::PlausibleHigh => "plausible_range_c[1]"@,
            }),
    {
        match self {
            Setting::RampUp => "ramp_up_rpm_per_s",
            Setting::RampDown => "ramp_down_rpm_per_s",
            Setting::PlausibleLow => "plausible_range_c[0]",
            Setting::PlausibleHigh => "plausible_range_c[1]",
        }
    }
}

impl SensorSetting {
    /// The name of the setting in a configuration file.
    pub fn name(self) -> (r: &'static str)
        ensures
            r@ == (match self {
                SensorSetting::BaselineFrom => "baseline_from"@,
                SensorSetting::Target => "target"@,
                SensorSetting::Critical => "critical"@,
                SensorSetting::Kp => "kp"@,
                SensorSetting::Ki => "ki"@,
            }),
    {
        match self {
            SensorSetting::BaselineFrom => "baseline_from",
            SensorSetting::Target => "target",
            SensorSetting::Critical => "critical",
            SensorSetting::Kp => "kp",
            SensorSetting::Ki => "ki",
        }
    }
}

/// The first thing that is wrong with a sensor, among plausible readings from `low` to `high`.
pub open spec fn sensor_problem(s: SensorConfig, low: Binary64, high: Binary64) -> Option<
    SensorProblem,
> {
    let nought = Datum::whole(0);
    if !s.baseline_from@.is_finite() {
        Some(
            SensorProblem::NotFinite { setting: SensorSetting::BaselineFrom, value: s.baseline_from },
        )
    } else if !s.target@.is_finite() {
        Some(SensorProblem::NotFinite { setting: SensorSetting::Target, value: s.target })
    } else if !s.critical@.is_finite() {
        Some(SensorProblem::NotFinite { setting: SensorSetting::Critical, value: s.critical })
    } else if !s.kp@.is_finite() {
        Some(SensorProblem::NotFinite { setting: SensorSetting::Kp, value: s.kp })
    } else if !s.ki@.is_finite() {
        Some(SensorProblem::NotFinite { setting: SensorSetting::Ki, value: s.ki })
    } else if s.target@.le(s.baseline_from@) {
        Some(
            SensorProblem::BaselineNotBelowTarget {
                baseline_from: s.baseline_from,
                target: s.target,
            },
        )
    } else if s.critical@.le(s.target@) {
        Some(SensorProblem::TargetNotBelowCritical { target: s.target, critical: s.critical })
    } else if s.baseline_from@.lt(low@) {
        Some(SensorProblem::BaselineBelowRange { baseline_from: s.baseline_from, low })
    } else if high@.lt(s.critical@) {
        Some(SensorProblem::CriticalAboveRange { critical: s.critical, high })
    } else if s.integral_limit_rpm == Some(0u32) && nought.lt(s.ki@) {
        Some(SensorProblem::ZeroIntegralLimit)
    } else if s.kp@.lt(nought) || s.ki@.lt(nought) {
        Some(SensorProblem::NegativeGain)
    } else {
        None
    }
}

/// The first thing that is wrong with a list of sensors.
pub open spec fn sensors_problem(
    sensors: Seq<SensorConfig>,
    low: Binary64,
    high: Binary64,
) -> Option<ConfigError>
    decreases sensors.len(),
{
    if sensors.len() == 0 {
        None
    } else {
        match sensor_problem(sensors[0], low, high) {
            Some(problem) => Some(ConfigError::Sensor { key: sensors[0].key, problem }),
            None => sensors_problem(sensors.drop_first(), low, high),
        }
    }
}

impl Config {
    pub open spec fn low(self) -> Binary64 {
        self.plausible_range_c@[0]
    }

    pub open spec fn high(self) -> Binary64 {
        self.plausible_range_c@[1]
    }

    /// The first thing that is wrong with the configuration.
    pub open spec fn problem(self) -> Option<ConfigError> {
        let nought = Datum::whole(0);
        if self.poll_interval_ms == 0 {
            Some(ConfigError::ZeroPollInterval)
        } else if !self.ramp_up_rpm_per_s@.is_finite() {
            Some(
                ConfigError::NotFinite { setting: Setting::RampUp, value: self.ramp_up_rpm_per_s },
            )
        } else if !self.ramp_down_rpm_per_s@.is_finite() {
            Some(
                ConfigError::NotFinite {
                    setting: Setting::RampDown,
                    value: self.ramp_down_rpm_per_s,
                },
            )
        } else if !self.low()@.is_finite() {
            Some(ConfigError::NotFinite { setting: Setting::PlausibleLow, value: self.low() })
        } else if !self.high()@.is_finite() {
            Some(ConfigError::NotFinite { setting: Setting::PlausibleHigh, value: self.high() })
        } else if self.ramp_up_rpm_per_s@.le(nought) || self.ramp_down_rpm_per_s@.le(nought) {
            Some(ConfigError::RampNotPositive)
        } else if self.high()@.le(self.low()@) {
            Some(ConfigError::RangeReversed { low: self.low(), high: self.high() })
        } else if self.min_rpm is Some && self.max_rpm is Some && self.min_rpm->0
            > self.max_rpm->0 {
            Some(ConfigError::SpeedsReversed { min: self.min_rpm->0, max: self.max_rpm->0 })
        } else if self.sensors@.len() == 0 {
            Some(ConfigError::NoSensors)
        } else {
            sensors_problem(self.sensors@, self.low(), self.high())
        }
    }
}

/// Whether the settings of a sensor are in order, and what is wrong with them first.
fn check_sensor(s: &SensorConfig, low: Binary64, high: Binary64) -> (r: Option<SensorProblem>)
    ensures
        r == sensor_problem(*s, low, high),
{
    let nought: Binary64 = Binary64::from_u32(0);
    if !s.baseline_from.is_finite() {
        return Some(
            SensorProblem::NotFinite { setting: SensorSetting::BaselineFrom, value: s.baseline_from },
        );
    }
    if !s.target.is_finite() {
        return Some(SensorProblem::NotFinite { setting: SensorSetting::Target, value: s.target });
    }
    if !s.critical.is_finite() {
        return Some(
            SensorProblem::NotFinite { setting: SensorSetting::Critical, value: s.critical },
        );
    }
    if !s.kp.is_finite() {
        return Some(SensorProblem::NotFinite { setting: SensorSetting::Kp, value: s.kp });
    }
    if !s.ki.is_finite() {
        return Some(SensorProblem::NotFinite { setting: SensorSetting::Ki, value: s.ki });
    }
    if s.target.le(s.baseline_from) {
        return Some(
            SensorProblem::BaselineNotBelowTarget {
                baseline_from: s.baseline_from,
                target: s.target,
            },
        );
    }
    if s.critical.le(s.target) {
        return Some(
            SensorProblem::TargetNotBelowCritical { target: s.target, critical: s.critical },
        );
    }
    if s.baseline_from.lt(low) {
        return Some(SensorProblem::BaselineBelowRange { baseline_from: s.baseline_from, low });
    }
    if high.lt(s.critical) {
        return Some(SensorProblem::CriticalAboveRange { critical: s.critical, high });
    }
    let no_integral: bool = match s.integral_limit_rpm {
        Some(limit) => limit == 0,
        None => false,
    };
    if no_integral && nought.lt(s.ki) {
        return Some(SensorProblem::ZeroIntegralLimit);
    }
    if s.kp.lt(nought) || s.ki.lt(nought) {
        return Some(SensorProblem::NegativeGain);
    }
    None
}

impl Config {
    /// How often to sample and command, in nanoseconds.
    pub fn poll_interval(&self) -> (r: u128)
        ensures
            r == self.poll_interval_ms * 1_000_000,
    {
        self.poll_interval_ms as u128 * 1_000_000
    }

    /// Whether the configuration is one to steer by; if not, what is wrong with it first.
    pub fn validate(&self) -> (r: Result<(), ConfigError>)
        ensures
            r == (match self.problem() {
                Some(e) => Err(e),
                None => Ok(()),
            }),
    {
        let nought: Binary64 = Binary64::from_u32(0);
        let low: Binary64 = self.plausible_range_c[0];
        let high: Binary64 = self.plausible_range_c[1];
        if self.poll_interval_ms == 0 {
            return Err(ConfigError::ZeroPollInterval);
        }
        if !self.ramp_up_rpm_per_s.is_finite() {
            return Err(
                ConfigError::NotFinite { setting: Setting::RampUp, value: self.ramp_up_rpm_per_s },
            );
        }
        if !self.ramp_down_rpm_per_s.is_finite() {
            return Err(
                ConfigError::NotFinite {
                    setting: Setting::RampDown,
                    value: self.ramp_down_rpm_per_s,
                },
            );
        }
        if !low.is_finite() {
            return Err(ConfigError::NotFinite { setting: Setting::PlausibleLow, value: low });
        }
        if !high.is_finite() {
            return Err(ConfigError::NotFinite { setting: Setting::PlausibleHigh, value: high });
        }
        if self.ramp_up_rpm_per_s.le(nought) || self.ramp_down_rpm_per_s.le(nought) {
            return Err(ConfigError::RampNotPositive);
        }
        if high.le(low) {
            return Err(ConfigError::RangeReversed { low, high });
        }
        if let (Some(min), Some(max)) = (self.min_rpm, self.max_rpm) {
            if min > max {
                return Err(ConfigError::SpeedsReversed { min, max });
            }
        }
        if self.sensors.len() == 0 {
            return Err(ConfigError::NoSensors);
        }
        let mut i: usize = 0;
        assert(self.sensors@.skip(0) =~= self.sensors@);
        while i < self.sensors.len()
            invariant
                i <= self.sensors@.len(),
                self.problem() == sensors_problem(self.sensors@.skip(i as int), low, high),
            decreases self.sensors@.len() - i,
        {
            assert(self.sensors@.skip(i as int).drop_first() =~= self.sensors@.skip(i + 1));
            assert(self.sensors@.skip(i as int)[0] == self.sensors@[i as int]);
            match check_sensor(&self.sensors[i], low, high) {
                Some(problem) => {
                    return Err(ConfigError::Sensor { key: self.sensors[i].key.clone(), problem });
                },
                None => {},
            }
            i += 1;
        }
        Ok(())
    }
}

/// The bottom of the plausible temperature range, and so the earliest that a baseline ramp
/// can start: a reading below this is a misreport.
pub const PLAUSIBLE_LOW_C: u32 = 5;

/// Where the ramp of a sensor starts that does not say: at the bottom of the plausible
/// range, which is the most air that any ramp can ask for.
pub fn default_baseline_from() -> (r: Binary64)
    ensures
        r@ == Datum::whole(5),
{
    Binary64::from_u32(PLAUSIBLE_LOW_C)
}

/// The proportional gain of a sensor that does not say.
pub fn default_kp() -> (r: Binary64)
    ensures
        r@ == Datum::whole(140),
{
    Binary64::from_u32(140)
}

/// The integral gain of a sensor that does not say.
pub fn default_ki() -> (r: Binary64)
    ensures
        r@ == Datum::whole(30),
{
    Binary64::from_u32(30)
}

impl SensorConfig {
    /// That the settings are these, in whole degrees and rpm.
    pub open spec fn is_set(
        self,
        source: Source,
        key: Seq<char>,
        baseline_from: int,
        target: int,
        critical: int,
        kp: int,
        ki: int,
        integral_limit_rpm: Option<u32>,
        optional: bool,
    ) -> bool {
        &&& self.source == source
        &&& self.key@ == key
        &&& self.baseline_from@ == Datum::whole(baseline_from)
        &&& self.target@ == Datum::whole(target)
        &&& self.critical@ == Datum::whole(critical)
        &&& self.kp@ == Datum::whole(kp)
        &&& self.ki@ == Datum::whole(ki)
        &&& self.integral_limit_rpm == integral_limit_rpm
        &&& self.optional == optional
    }

    fn of(
        source: Source,
        key: &str,
        degrees: (u32, u32, u32),
        gains: (u32, u32),
        integral_limit_rpm: Option<u32>,
        optional: bool,
    ) -> (r: SensorConfig)
        ensures
            r.is_set(
                source,
                key@,
                degrees.0 as int,
                degrees.1 as int,
                degrees.2 as int,
                gains.0 as int,
                gains.1 as int,
                integral_limit_rpm,
                optional,
            ),
    {
        SensorConfig {
            source,
            key: key.to_owned(),
            baseline_from: Binary64::from_u32(degrees.0),
            target: Binary64::from_u32(degrees.1),
            critical: Binary64::from_u32(degrees.2),
            kp: Binary64::from_u32(gains.0),
            ki: Binary64::from_u32(gains.1),
            integral_limit_rpm,
            optional,
        }
    }
}

/// The default sensors, measured on a MacBookPro9,2.
pub open spec fn are_default_sensors(s: Seq<SensorConfig>) -> bool {
    &&& s.len() == 5
    &&& s[0].is_set(Source::Coretemp, "Package id 0"@, 60, 80, 95, 140, 30, None, false)
    &&& s[1].is_set(Source::Applesmc, "TC0P"@, 55, 75, 95, 140, 30, None, false)
    &&& s[2].is_set(Source::Applesmc, "TPCD"@, 80, 90, 100, 200, 40, Some(1500), false)
    &&& s[3].is_set(Source::Applesmc, "Ts0S"@, 50, 55, 70, 250, 50, Some(1200), false)
    &&& s[4].is_set(Source::Applesmc, "TM0P"@, 55, 75, 95, 120, 25, None, true)
}

/// The default sensors, measured on a MacBookPro9,2.
///
/// Their `critical` lies below the 105 degrees at which the CPU throttles itself: by then
/// the fans should have been flat out for a while.
pub fn default_sensors() -> (r: Vec<SensorConfig>)
    ensures
        are_default_sensors(r@),
{
    let mut r: Vec<SensorConfig> = Vec::new();
    // The CPU package: clear of its own limit, without running the fans up over ordinary
    // desktop work.
    r.push(SensorConfig::of(Source::Coretemp, "Package id 0", (60, 80, 95), (140, 30), None, false));
    // CPU proximity, on the heatsink side: it tracks both load and fan speed.
    r.push(SensorConfig::of(Source::Applesmc, "TC0P", (55, 75, 95), (140, 30), None, false));
    // The PCH die, which airflow cannot reach: its integral is capped, or it would pin the
    // fans at maximum for nothing.
    r.push(
        SensorConfig::of(Source::Applesmc, "TPCD", (80, 90, 100), (200, 40), Some(1500), false),
    );
    // The palm rest skin, which airflow barely moves either.
    r.push(SensorConfig::of(Source::Applesmc, "Ts0S", (50, 55, 70), (250, 50), Some(1200), false));
    // Memory proximity, which not every model has.
    r.push(SensorConfig::of(Source::Applesmc, "TM0P", (55, 75, 95), (120, 25), None, true));
    r
}

impl Config {
    /// That every setting has its default.
    pub open spec fn is_default(self) -> bool {
        &&& self.poll_interval_ms == 1000
        &&& self.ramp_up_rpm_per_s@ == Datum::whole(3000)
        &&& self.ramp_down_rpm_per_s@ == Datum::whole(200)
        &&& self.deadband_rpm == 40
        &&& self.min_rpm is None
        &&& self.max_rpm is None
        &&& self.low()@ == Datum::whole(5)
        &&& self.high()@ == Datum::whole(125)
        &&& self.sensor_grace_polls == 5
        &&& are_default_sensors(self.sensors@)
    }
}

impl Default for Config {
    /// The configuration of a daemon that is told nothing.
    fn default() -> (r: Config)
        ensures
            r.is_default(),
    {
        Config {
            poll_interval_ms: 1000,
            ramp_up_rpm_per_s: Binary64::from_u32(3000),
            ramp_down_rpm_per_s: Binary64::from_u32(200),
            deadband_rpm: 40,
            min_rpm: None,
            max_rpm: None,
            plausible_range_c: [Binary64::from_u32(PLAUSIBLE_LOW_C), Binary64::from_u32(125)],
            sensor_grace_polls: 5,
            sensors: default_sensors(),
        }
    }
}

/// What a configuration file says. What it leaves out keeps its default.
#[derive(Debug)]
pub struct ConfigFile {
    pub poll_interval_ms: Option<u64>,
    pub ramp_up_rpm_per_s: Option<Binary64>,
    pub ramp_down_rpm_per_s: Option<Binary64>,
    pub deadband_rpm: Option<u32>,
    pub min_rpm: Option<u32>,
    pub max_rpm: Option<u32>,
    pub plausible_range_c: Option<[Binary64; 2]>,
    pub sensor_grace_polls: Option<u32>,
    pub sensors: Option<Vec<SensorEntry>>,
}

/// What a configuration file says of one sensor.
#[derive(Debug)]
pub struct SensorEntry {
    pub source: Source,
    pub key: String,
    pub baseline_from: Option<Binary64>,
    pub target: Binary64,
    pub critical: Binary64,
    pub kp: Option<Binary64>,
    pub ki: Option<Binary64>,
    pub integral_limit_rpm: Option<u32>,
    pub optional: Option<bool>,
}

/// A number that is set, or else a whole one.
pub open spec fn set_or(set: Option<Binary64>, default: int) -> Datum {
    match set {
        Some(x) => x@,
        None => Datum::whole(default),
    }
}

impl SensorConfig {
    /// That the sensor is set as `entry` says, and for the rest by default.
    pub open spec fn fills(self, entry: SensorEntry) -> bool {
        &&& self.source == entry.source
        &&& self.key == entry.key
        &&& self.baseline_from@ == set_or(entry.baseline_from, 5)
        &&& self.target == entry.target
        &&& self.critical == entry.critical
        &&& self.kp@ == set_or(entry.kp, 140)
        &&& self.ki@ == set_or(entry.ki, 30)
        &&& self.integral_limit_rpm == entry.integral_limit_rpm
        &&& self.optional == (entry.optional == Some(true))
    }

    fn from_entry(entry: &SensorEntry) -> (r: SensorConfig)
        ensures
            r.fills(*entry),
    {
        SensorConfig {
            source: entry.source,
            key: entry.key.clone(),
            baseline_from: match entry.baseline_from {
                Some(x) => x,
                None => default_baseline_from(),
            },
            target: entry.target,
            critical: entry.critical,
            kp: match entry.kp {
                Some(x) => x,
                None => default_kp(),
            },
            ki: match entry.ki {
                Some(x) => x,
                None => default_ki(),
            },
            integral_limit_rpm: entry.integral_limit_rpm,
            optional: match entry.optional {
                Some(x) => x,
                None => false,
            },
        }
    }
}

impl Config {
    /// That the configuration is set as `file` says, and for the rest by default.
    pub open spec fn fills(self, file: ConfigFile) -> bool {
        &&& self.poll_interval_ms == (match file.poll_interval_ms {
            Some(x) => x,
            None => 1000,
        })
        &&& self.ramp_up_rpm_per_s@ == set_or(file.ramp_up_rpm_per_s, 3000)
        &&& self.ramp_down_rpm_per_s@ == set_or(file.ramp_down_rpm_per_s, 200)
        &&& self.deadband_rpm == (match file.deadband_rpm {
            Some(x) => x,
            None => 40,
        })
        &&& self.min_rpm == file.min_rpm
        &&& self.max_rpm == file.max_rpm
        &&& match file.plausible_range_c {
            Some(x) => self.low() == x@[0] && self.high() == x@[1],
            None => self.low()@ == Datum::whole(5) && self.high()@ == Datum::whole(125),
        }
        &&& self.sensor_grace_polls == (match file.sensor_grace_polls {
            Some(x) => x,
            None => 5,
        })
        &&& match file.sensors {
            Some(list) => {
                &&& self.sensors@.len() == list@.len()
                &&& forall|i: int|
                    0 <= i < list@.len() ==> (#[trigger] self.sensors@[i]).fills(list@[i])
            },
            None => are_default_sensors(self.sensors@),
        }
    }

    /// The configuration that a file sets, the rest by default, whether or not it is valid.
    pub fn from_file(file: ConfigFile) -> (r: Config)
        ensures
            r.fills(file),
    {
        let sensors: Vec<SensorConfig> = match &file.sensors {
            Some(list) => {
                let mut sensors: Vec<SensorConfig> = Vec::new();
                let mut i: usize = 0;
                while i < list.len()
                    invariant
                        i <= list@.len(),
                        sensors@.len() == i,
                        forall|j: int|
                            0 <= j < i ==> (#[trigger] sensors@[j]).fills(list@[j]),
                    decreases list@.len() - i,
                {
                    sensors.push(SensorConfig::from_entry(&list[i]));
                    i += 1;
                }
                sensors
            },
            None => default_sensors(),
        };
        Config {
            poll_interval_ms: match file.poll_interval_ms {
                Some(x) => x,
                None => 1000,
            },
            ramp_up_rpm_per_s: match file.ramp_up_rpm_per_s {
                Some(x) => x,
                None => Binary64::from_u32(3000),
            },
            ramp_down_rpm_per_s: match file.ramp_down_rpm_per_s {
                Some(x) => x,
                None => Binary64::from_u32(200),
            },
            deadband_rpm: match file.deadband_rpm {
                Some(x) => x,
                None => 40,
            },
            min_rpm: file.min_rpm,
            max_rpm: file.max_rpm,
            plausible_range_c: match file.plausible_range_c {
                Some(x) => x,
                None => [Binary64::from_u32(PLAUSIBLE_LOW_C), Binary64::from_u32(125)],
            },
            sensor_grace_polls: match file.sensor_grace_polls {
                Some(x) => x,
                None => 5,
            },
            sensors,
        }
    }

    /// The configuration that a file sets, the rest by default, where it is a valid one.
    pub fn load(file: ConfigFile) -> (r: Result<Config, ConfigError>)
        ensures
            r matches Ok(config) ==> config.fills(file) && config.problem() is None,
            r matches Err(e) ==> exists|config: Config|
                config.fills(file) && #[trigger] config.problem() == Some(e),
            forall|config: Config|
                config.fills(file) ==> (r is Ok) == (#[trigger] config.problem() is None),
    {
        let ghost said = file;
        let config: Config = Config::from_file(file);
        proof {
            assert forall|other: Config| other.fills(said) implies (config.problem() is None) == (
            #[trigger] other.problem() is None) by {
                lemma_same_verdict(config, other, said);
            }
        }
        match config.validate() {
            Ok(()) => Ok(config),
            Err(e) => Err(e),
        }
    }
}

/// A list of sensors has a problem exactly where one of them has.
proof fn lemma_sensors_problem(s: Seq<SensorConfig>, low: Binary64, high: Binary64)
    ensures
        (sensors_problem(s, low, high) is None) == (forall|i: int|
            0 <= i < s.len() ==> sensor_problem(#[trigger] s[i], low, high) is None),
    decreases s.len(),
{
    if s.len() > 0 {
        let rest = s.drop_first();
        lemma_sensors_problem(rest, low, high);
        if sensor_problem(s[0], low, high) is None {
            if sensors_problem(rest, low, high) is None {
                assert forall|i: int| 0 <= i < s.len() implies sensor_problem(
                    #[trigger] s[i],
                    low,
                    high,
                ) is None by {
                    if i > 0 {
                        assert(rest[i - 1] == s[i]);
                    }
                }
            } else {
                let i = choose|i: int|
                    0 <= i < rest.len() && sensor_problem(#[trigger] rest[i], low, high) is Some;
                assert(s[i + 1] == rest[i]);
            }
        }
    }
}

/// What one file fills out is valid in every way of filling it out, or in none.
proof fn lemma_same_verdict(a: Config, b: Config, file: ConfigFile)
    requires
        a.fills(file),
        b.fills(file),
    ensures
        (a.problem() is None) == (b.problem() is None),
{
    lemma_sensors_problem(a.sensors@, a.low(), a.high());
    lemma_sensors_problem(b.sensors@, b.low(), b.high());
    assert(a.sensors@.len() == b.sensors@.len());
    assert forall|i: int| 0 <= i < a.sensors@.len() implies (sensor_problem(
        #[trigger] a.sensors@[i],
        a.low(),
        a.high(),
    ) is None) == (sensor_problem(b.sensors@[i], b.low(), b.high()) is None) by {
        let x = a.sensors@[i];
        let y = b.sensors@[i];
        if let Some(list) = file.sensors {
            assert(x.fills(list@[i]));
            assert(y.fills(list@[i]));
        }
        assert(x.baseline_from@ == y.baseline_from@);
        assert(x.target@ == y.target@);
        assert(x.critical@ == y.critical@);
        assert(x.kp@ == y.kp@ && x.ki@ == y.ki@);
    }
    if sensors_problem(a.sensors@, a.low(), a.high()) is None {
        assert forall|i: int| 0 <= i < b.sensors@.len() implies sensor_problem(
            #[trigger] b.sensors@[i],
            b.low(),
            b.high(),
        ) is None by {
            assert(sensor_problem(a.sensors@[i], a.low(), a.high()) is None);
        }
    }
}

/// What is wrong with a sensor, if anything is: a setting that is no finite number, named in the
/// order of the settings; a start of its ramp that does not lie below its target; a target that
/// does not lie below its critical temperature; a start below the plausible range, or a critical
/// temperature above it; an integral gain beside a limit of nothing; or a gain below nothing. A
/// sensor of which none of that holds has no problem.
pub proof fn law_a_sensor_is_faulted_for_what_is_wrong(
    s: SensorConfig,
    low: Binary64,
    high: Binary64,
)
    requires
        low@ is Finite,
        high@ is Finite,
    ensures
        sensor_problem(s, low, high) is None <==> {
            &&& s.baseline_from@ is Finite && s.target@ is Finite && s.critical@ is Finite
            &&& s.kp@ is Finite && s.ki@ is Finite
            &&& low@.place() <= s.baseline_from@.place()
            &&& s.baseline_from@.place() < s.target@.place()
            &&& s.target@.place() < s.critical@.place()
            &&& s.critical@.place() <= high@.place()
            &&& s.kp@.place() >= 0 && s.ki@.place() >= 0
            &&& s.integral_limit_rpm == Some(0u32) ==> s.ki@.place() == 0
        },
        match sensor_problem(s, low, high) {
            None => true,
            Some(SensorProblem::NotFinite { setting, value }) => match setting {
                SensorSetting::BaselineFrom => value == s.baseline_from && !(value@ is Finite),
                SensorSetting::Target => value == s.target && !(value@ is Finite)
                    && s.baseline_from@ is Finite,
                SensorSetting::Critical => value == s.critical && !(value@ is Finite)
                    && s.baseline_from@ is Finite && s.target@ is Finite,
                SensorSetting::Kp => value == s.kp && !(value@ is Finite)
                    && s.baseline_from@ is Finite && s.target@ is Finite && s.critical@ is Finite,
                SensorSetting::Ki => value == s.ki && !(value@ is Finite)
                    && s.baseline_from@ is Finite && s.target@ is Finite && s.critical@ is Finite
                    && s.kp@ is Finite,
            },
            Some(problem) => {
                &&& s.baseline_from@ is Finite && s.target@ is Finite && s.critical@ is Finite
                &&& s.kp@ is Finite && s.ki@ is Finite
                &&& match problem {
                    SensorProblem::BaselineNotBelowTarget { baseline_from, target } => {
                        &&& baseline_from == s.baseline_from && target == s.target
                        &&& target@.place() <= baseline_from@.place()
                    },
                    SensorProblem::TargetNotBelowCritical { target, critical } => {
                        &&& target == s.target && critical == s.critical
                        &&& s.baseline_from@.place() < target@.place()
                        &&& critical@.place() <= target@.place()
                    },
                    SensorProblem::BaselineBelowRange { baseline_from, low: bottom } => {
                        &&& baseline_from == s.baseline_from && bottom == low
                        &&& s.baseline_from@.place() < s.target@.place() < s.critical@.place()
                        &&& baseline_from@.place() < low@.place()
                    },
                    SensorProblem::CriticalAboveRange { critical, high: most } => {
                        &&& critical == s.critical && most == high
                        &&& s.baseline_from@.place() < s.target@.place() < s.critical@.place()
                        &&& low@.place() <= s.baseline_from@.place()
                        &&& high@.place() < critical@.place()
                    },
                    SensorProblem::ZeroIntegralLimit => {
                        &&& low@.place() <= s.baseline_from@.place()
                        &&& s.baseline_from@.place() < s.target@.place() < s.critical@.place()
                        &&& s.critical@.place() <= high@.place()
                        &&& s.integral_limit_rpm == Some(0u32)
                        &&& s.ki@.place() > 0
                    },
                    SensorProblem::NegativeGain => {
                        &&& low@.place() <= s.baseline_from@.place()
                        &&& s.baseline_from@.place() < s.target@.place() < s.critical@.place()
                        &&& s.critical@.place() <= high@.place()
                        &&& s.integral_limit_rpm == Some(0u32) ==> s.ki@.place() <= 0
                        &&& s.kp@.place() < 0 || s.ki@.place() < 0
                    },
                    SensorProblem::NotFinite { .. } => true,
                }
            },
        },
{
    lemma_whole_order(0, 0);
}

/// A list of sensors is faulted for the first of them that has a problem, under its key.
pub proof fn law_the_first_faulty_sensor_is_named(s: Seq<SensorConfig>, low: Binary64, high: Binary64)
    ensures
        sensors_problem(s, low, high) is None <==> (forall|i: int|
            0 <= i < s.len() ==> sensor_problem(#[trigger] s[i], low, high) is None),
        sensors_problem(s, low, high) is Some ==> exists|i: int|
            {
                &&& 0 <= i < s.len()
                &&& sensor_problem(#[trigger] s[i], low, high) is Some
                &&& sensors_problem(s, low, high) == Some(
                    ConfigError::Sensor {
                        key: s[i].key,
                        problem: sensor_problem(s[i], low, high)->0,
                    },
                )
                &&& forall|j: int|
                    0 <= j < i ==> sensor_problem(#[trigger] s[j], low, high) is None
            },
    decreases s.len(),
{
    lemma_sensors_problem(s, low, high);
    if s.len() > 0 && sensor_problem(s[0], low, high) is None {
        let rest = s.drop_first();
        law_the_first_faulty_sensor_is_named(rest, low, high);
        if sensors_problem(rest, low, high) is Some {
            let k = choose|k: int|
                {
                    &&& 0 <= k < rest.len()
                    &&& sensor_problem(#[trigger] rest[k], low, high) is Some
                    &&& sensors_problem(rest, low, high) == Some(
                        ConfigError::Sensor {
                            key: rest[k].key,
                            problem: sensor_problem(rest[k], low, high)->0,
                        },
                    )
                    &&& forall|j: int|
                        0 <= j < k ==> sensor_problem(#[trigger] rest[j], low, high) is None
                };
            assert(s[k + 1] == rest[k]);
            assert forall|j: int| 0 <= j < k + 1 implies sensor_problem(
                #[trigger] s[j],
                low,
                high,
            ) is None by {
                if j > 0 {
                    assert(rest[j - 1] == s[j]);
                }
            }
        }
    }
}

/// Validation is exact: a configuration is accepted exactly where it polls at all, its ramps are
/// finite and positive, its plausible range is finite and not reversed, its speeds are not
/// reversed where both are set, it has a sensor, and every sensor has finite settings, in the
/// order `low <= baseline_from < target < critical <= high`, with gains that are not negative and
/// no limit of nothing beside an integral gain.
pub proof fn law_validation_is_exact(config: Config)
    ensures
        config.problem() is None <==> {
            let low = config.plausible_range_c@[0]@;
            let high = config.plausible_range_c@[1]@;
            &&& config.poll_interval_ms > 0
            &&& config.ramp_up_rpm_per_s@ is Finite && config.ramp_up_rpm_per_s@.place() > 0
            &&& config.ramp_down_rpm_per_s@ is Finite && config.ramp_down_rpm_per_s@.place() > 0
            &&& low is Finite && high is Finite && low.place() < high.place()
            &&& !(config.min_rpm is Some && config.max_rpm is Some && config.min_rpm->0
                > config.max_rpm->0)
            &&& config.sensors@.len() > 0
            &&& forall|i: int|
                0 <= i < config.sensors@.len() ==> {
                    let s = #[trigger] config.sensors@[i];
                    &&& s.baseline_from@ is Finite && s.target@ is Finite && s.critical@ is Finite
                    &&& s.kp@ is Finite && s.ki@ is Finite
                    &&& low.place() <= s.baseline_from@.place()
                    &&& s.baseline_from@.place() < s.target@.place()
                    &&& s.target@.place() < s.critical@.place()
                    &&& s.critical@.place() <= high.place()
                    &&& s.kp@.place() >= 0 && s.ki@.place() >= 0
                    &&& s.integral_limit_rpm == Some(0u32) ==> s.ki@.place() == 0
                }
        },
{
    let low = config.plausible_range_c@[0];
    let high = config.plausible_range_c@[1];
    lemma_whole_order(0, 0);
    lemma_sensors_problem(config.sensors@, low, high);
    if low@ is Finite && high@ is Finite {
        assert forall|i: int| 0 <= i < config.sensors@.len() implies (sensor_problem(
            #[trigger] config.sensors@[i],
            low,
            high,
        ) is None <==> {
            let s = config.sensors@[i];
            &&& s.baseline_from@ is Finite && s.target@ is Finite && s.critical@ is Finite
            &&& s.kp@ is Finite && s.ki@ is Finite
            &&& low@.place() <= s.baseline_from@.place()
            &&& s.baseline_from@.place() < s.target@.place()
            &&& s.target@.place() < s.critical@.place()
            &&& s.critical@.place() <= high@.place()
            &&& s.kp@.place() >= 0 && s.ki@.place() >= 0
            &&& s.integral_limit_rpm == Some(0u32) ==> s.ki@.place() == 0
        }) by {
            law_a_sensor_is_faulted_for_what_is_wrong(config.sensors@[i], low, high);
        }
    }
}

/// A configuration that is refused is refused for the first of these that holds of it: it never
/// polls; a number that is not finite, of the ramps and then of the range; a ramp that is not
/// positive; a range that is reversed; speeds that are reversed; no sensor; and then the first
/// sensor with a problem.
pub proof fn law_a_refusal_names_what_is_wrong(config: Config)
    ensures
        ({
            let up = config.ramp_up_rpm_per_s;
            let down = config.ramp_down_rpm_per_s;
            let low = config.plausible_range_c@[0];
            let high = config.plausible_range_c@[1];
            let finite = up@ is Finite && down@ is Finite && low@ is Finite && high@ is Finite;
            let rising = up@.place() > 0 && down@.place() > 0;
            let speeds = config.min_rpm is Some && config.max_rpm is Some && config.min_rpm->0
                > config.max_rpm->0;
            &&& config.problem() == Some(ConfigError::ZeroPollInterval) <==> config.poll_interval_ms
                == 0
            &&& config.poll_interval_ms > 0 && !finite ==> {
                &&& !(up@ is Finite) ==> config.problem() == Some(
                    ConfigError::NotFinite { setting: Setting::RampUp, value: up },
                )
                &&& up@ is Finite && !(down@ is Finite) ==> config.problem() == Some(
                    ConfigError::NotFinite { setting: Setting::RampDown, value: down },
                )
                &&& up@ is Finite && down@ is Finite && !(low@ is Finite) ==> config.problem()
                    == Some(ConfigError::NotFinite { setting: Setting::PlausibleLow, value: low })
                &&& up@ is Finite && down@ is Finite && low@ is Finite ==> config.problem() == Some(
                    ConfigError::NotFinite { setting: Setting::PlausibleHigh, value: high },
                )
            }
            &&& config.poll_interval_ms > 0 && finite ==> {
                &&& !rising ==> config.problem() == Some(ConfigError::RampNotPositive)
                &&& rising && high@.place() <= low@.place() ==> config.problem() == Some(
                    ConfigError::RangeReversed { low, high },
                )
                &&& rising && low@.place() < high@.place() && speeds ==> config.problem() == Some(
                    ConfigError::SpeedsReversed { min: config.min_rpm->0, max: config.max_rpm->0 },
                )
                &&& rising && low@.place() < high@.place() && !speeds ==> config.problem() == (
                if config.sensors@.len() == 0 {
                    Some(ConfigError::NoSensors)
                } else {
                    sensors_problem(config.sensors@, low, high)
                })
            }
        }),
{
    lemma_whole_order(0, 0);
    law_the_first_faulty_sensor_is_named(config.sensors@, config.low(), config.high());
}

/// What a file sets is what the configuration has, and what it leaves out is what a configuration
/// has by default.
pub proof fn law_a_file_overrides_the_defaults(config: Config, file: ConfigFile, default: Config)
    requires
        config.fills(file),
        default.is_default(),
    ensures
        config.poll_interval_ms == (match file.poll_interval_ms {
            Some(x) => x,
            None => default.poll_interval_ms,
        }),
        config.ramp_up_rpm_per_s@ == (match file.ramp_up_rpm_per_s {
            Some(x) => x@,
            None => default.ramp_up_rpm_per_s@,
        }),
        config.ramp_down_rpm_per_s@ == (match file.ramp_down_rpm_per_s {
            Some(x) => x@,
            None => default.ramp_down_rpm_per_s@,
        }),
        config.deadband_rpm == (match file.deadband_rpm {
            Some(x) => x,
            None => default.deadband_rpm,
        }),
        config.min_rpm == file.min_rpm,
        config.max_rpm == file.max_rpm,
        default.min_rpm is None && default.max_rpm is None,
        forall|k: int|
            0 <= k < 2 ==> (#[trigger] config.plausible_range_c@[k])@ == (
            match file.plausible_range_c {
                Some(x) => x@[k]@,
                None => default.plausible_range_c@[k]@,
            }),
        config.sensor_grace_polls == (match file.sensor_grace_polls {
            Some(x) => x,
            None => default.sensor_grace_polls,
        }),
        config.sensors@.len() == (match file.sensors {
            Some(list) => list@.len(),
            None => default.sensors@.len(),
        }),
        forall|i: int|
            0 <= i < config.sensors@.len() ==> {
                let s = #[trigger] config.sensors@[i];
                match file.sensors {
                    Some(list) => {
                        let e = list@[i];
                        &&& s.source == e.source
                        &&& s.key@ == e.key@
                        &&& s.target@ == e.target@
                        &&& s.critical@ == e.critical@
                        &&& e.baseline_from matches Some(x) ==> s.baseline_from@ == x@
                        &&& e.kp matches Some(x) ==> s.kp@ == x@
                        &&& e.ki matches Some(x) ==> s.ki@ == x@
                        &&& s.integral_limit_rpm == e.integral_limit_rpm
                        &&& e.optional matches Some(x) ==> s.optional == x
                        &&& e.baseline_from is None ==> s.baseline_from@.place() == 5 * unit()
                        &&& e.kp is None ==> s.kp@.place() == 140 * unit()
                        &&& e.ki is None ==> s.ki@.place() == 30 * unit()
                        &&& e.optional is None ==> !s.optional
                    },
                    None => {
                        let d = default.sensors@[i];
                        &&& s.source == d.source
                        &&& s.key@ == d.key@
                        &&& s.baseline_from@ == d.baseline_from@
                        &&& s.target@ == d.target@
                        &&& s.critical@ == d.critical@
                        &&& s.kp@ == d.kp@
                        &&& s.ki@ == d.ki@
                        &&& s.integral_limit_rpm == d.integral_limit_rpm
                        &&& s.optional == d.optional
                    },
                }
            },
{
    lemma_whole_order(140, 30);
    lemma_whole_order(5, 5);
    assert forall|i: int| 0 <= i < config.sensors@.len() && file.sensors is Some implies (
    #[trigger] config.sensors@[i]).fills(file.sensors->0@[i]) by {}
}

/// The built-in defaults are a valid configuration.
pub proof fn law_defaults_are_valid(config: Config)
    requires
        config.is_default(),
    ensures
        config.problem() is None,
{
    lemma_whole_order(3000, 0);
    lemma_whole_order(200, 0);
    lemma_whole_order(125, 5);
    assert forall|i: int| 0 <= i < config.sensors@.len() implies sensor_problem(
        #[trigger] config.sensors@[i],
        config.low(),
        config.high(),
    ) is None by {
        let (from, target, critical, kp, ki) = if i == 0 {
            (60int, 80int, 95int, 140int, 30int)
        } else if i == 1 {
            (55int, 75int, 95int, 140int, 30int)
        } else if i == 2 {
            (80int, 90int, 100int, 200int, 40int)
        } else if i == 3 {
            (50int, 55int, 70int, 250int, 50int)
        } else {
            (55int, 75int, 95int, 120int, 25int)
        };
        lemma_whole_order(target, from);
        lemma_whole_order(critical, target);
        lemma_whole_order(from, 5);
        lemma_whole_order(125, critical);
        lemma_whole_order(kp, 0);
        lemma_whole_order(ki, 0);
    }
    lemma_sensors_problem(config.sensors@, config.low(), config.high());
}

impl ConfigFile {
    /// That the file sets nothing.
    pub open spec fn is_empty(self) -> bool {
        &&& self.poll_interval_ms is None
        &&& self.ramp_up_rpm_per_s is None
        &&& self.ramp_down_rpm_per_s is None
        &&& self.deadband_rpm is None
        &&& self.min_rpm is None
        &&& self.max_rpm is None
        &&& self.plausible_range_c is None
        &&& self.sensor_grace_polls is None
        &&& self.sensors is None
    }
}

/// A file that sets nothing is a valid configuration, and the same as no file at all.
pub proof fn law_empty_file_is_the_default(config: Config, file: ConfigFile)
    requires
        file.is_empty(),
        config.fills(file),
    ensures
        config.is_default(),
        config.problem() is None,
{
    law_defaults_are_valid(config);
}

/// In a valid configuration every sensor begins to ask for air below its target and has its
/// target below its critical temperature, all among plausible readings, with finite gains
/// that are not negative.
pub proof fn law_valid_sensors_are_ordered(config: Config, i: int)
    requires
        config.problem() is None,
        0 <= i < config.sensors@.len(),
    ensures
        ({
            let s = config.sensors@[i];
            &&& s.baseline_from@.is_finite()
            &&& s.target@.is_finite()
            &&& s.critical@.is_finite()
            &&& config.low()@.le(s.baseline_from@)
            &&& s.baseline_from@.lt(s.target@)
            &&& s.target@.lt(s.critical@)
            &&& s.critical@.le(config.high()@)
            &&& s.kp@.is_finite()
            &&& s.ki@.is_finite()
            &&& Datum::whole(0).le(s.kp@)
            &&& Datum::whole(0).le(s.ki@)
            &&& s.integral_limit_rpm == Some(0u32) ==> s.ki@.le(Datum::whole(0))
        }),
{
    lemma_sensors_problem(config.sensors@, config.low(), config.high());
    assert(sensor_problem(config.sensors@[i], config.low(), config.high()) is None);
}

/// A sensor that does not say where its ramp starts has it start no later than any valid
/// sensor can have it, while the plausible range is the default one.
pub proof fn law_unset_baseline_asks_first(
    config: Config,
    i: int,
    unset: SensorConfig,
    entry: SensorEntry,
)
    requires
        config.problem() is None,
        config.low()@ == Datum::whole(5),
        0 <= i < config.sensors@.len(),
        entry.baseline_from is None,
        unset.fills(entry),
    ensures
        unset.baseline_from@.le(config.sensors@[i].baseline_from@),
{
    law_valid_sensors_are_ordered(config, i);
}

/// The defaults in numbers: degrees, rpm, and what each sensor is steered by.
pub proof fn law_the_defaults_in_numbers(config: Config)
    requires
        config.is_default(),
    ensures
        config.poll_interval_ms == 1000,
        config.ramp_up_rpm_per_s@.place() == 3000 * unit(),
        config.ramp_down_rpm_per_s@.place() == 200 * unit(),
        config.deadband_rpm == 40,
        config.min_rpm is None,
        config.max_rpm is None,
        config.plausible_range_c@[0]@.place() == 5 * unit(),
        config.plausible_range_c@[1]@.place() == 125 * unit(),
        config.sensor_grace_polls == 5,
        config.sensors@.len() == 5,
        forall|i: int|
            0 <= i < 5 ==> {
                let s = #[trigger] config.sensors@[i];
                let (source, key, from, target, critical, kp, ki, limit, optional) = if i == 0 {
                    (Source::Coretemp, "Package id 0"@, 60int, 80int, 95int, 140int, 30int, None, false)
                } else if i == 1 {
                    (Source::Applesmc, "TC0P"@, 55int, 75int, 95int, 140int, 30int, None, false)
                } else if i == 2 {
                    (
                        Source::Applesmc,
                        "TPCD"@,
                        80int,
                        90int,
                        100int,
                        200int,
                        40int,
                        Some(1500u32),
                        false,
                    )
                } else if i == 3 {
                    (
                        Source::Applesmc,
                        "Ts0S"@,
                        50int,
                        55int,
                        70int,
                        250int,
                        50int,
                        Some(1200u32),
                        false,
                    )
                } else {
                    (Source::Applesmc, "TM0P"@, 55int, 75int, 95int, 120int, 25int, None, true)
                };
                &&& s.source == source
                &&& s.key@ == key
                &&& s.baseline_from@.place() == from * unit()
                &&& s.target@.place() == target * unit()
                &&& s.critical@.place() == critical * unit()
                &&& s.kp@.place() == kp * unit()
                &&& s.ki@.place() == ki * unit()
                &&& s.integral_limit_rpm == limit
                &&& s.optional == optional
            },
{
    lemma_whole_order(3000, 200);
    lemma_whole_order(5, 125);
    lemma_whole_order(60, 80);
    lemma_whole_order(95, 140);
    lemma_whole_order(30, 55);
    lemma_whole_order(75, 90);
    lemma_whole_order(100, 200);
    lemma_whole_order(40, 50);
    lemma_whole_order(70, 250);
    lemma_whole_order(120, 25);
}

/// Configurations that are the same have every setting the same, and every sensor.
pub proof fn law_the_same_configuration_has_the_same_settings(a: Config, b: Config)
    ensures
        a.same_as(b) <==> {
            &&& a.poll_interval_ms == b.poll_interval_ms
            &&& a.ramp_up_rpm_per_s == b.ramp_up_rpm_per_s
            &&& a.ramp_down_rpm_per_s == b.ramp_down_rpm_per_s
            &&& a.deadband_rpm == b.deadband_rpm
            &&& a.min_rpm == b.min_rpm
            &&& a.max_rpm == b.max_rpm
            &&& a.plausible_range_c == b.plausible_range_c
            &&& a.sensor_grace_polls == b.sensor_grace_polls
            &&& a.sensors@ == b.sensors@
        },
{
}

} // verus!
