//! The configuration, read from the text of a file.
use macfand::binary64::Binary64;
use macfand::config::{
    Config, ConfigError, ConfigFile, SensorConfig, SensorEntry, SensorProblem, SensorSetting,
    Setting, PLAUSIBLE_LOW_C,
};
use macfand::sysfs::Source;
use toml::{Table, Value};

fn b(x: f64) -> Binary64 {
    Binary64::from_bits(x.to_bits())
}

fn f(x: Binary64) -> f64 {
    f64::from_bits(x.to_bits())
}

/// One sensor table with the given body appended.
fn sensor(body: &str) -> String {
    format!("[[sensor]]\nsource = \"coretemp\"\nkey = \"Package id 0\"\n{body}")
}

fn number(v: &Value) -> Binary64 {
    match v {
        Value::Float(x) => b(*x),
        Value::Integer(n) => b(*n as f64),
        _ => panic!("not a number: {v:?}"),
    }
}

fn entry(t: &Table) -> SensorEntry {
    SensorEntry {
        source: match t["source"].as_str().unwrap() {
            "applesmc" => Source::Applesmc,
            _ => Source::Coretemp,
        },
        key: t["key"].as_str().unwrap().to_string(),
        baseline_from: t.get("baseline_from").map(number),
        target: number(&t["target"]),
        critical: number(&t["critical"]),
        kp: t.get("kp").map(number),
        ki: t.get("ki").map(number),
        integral_limit_rpm: t.get("integral_limit_rpm").map(|v| v.as_integer().unwrap() as u32),
        optional: t.get("optional").map(|v| v.as_bool().unwrap()),
    }
}

fn file(body: &str) -> ConfigFile {
    let t: Table = toml::from_str(body).expect("the body must be TOML");
    let whole = |key: &str| t.get(key).map(|v| v.as_integer().unwrap());
    ConfigFile {
        poll_interval_ms: whole("poll_interval_ms").map(|n| n as u64),
        ramp_up_rpm_per_s: t.get("ramp_up_rpm_per_s").map(number),
        ramp_down_rpm_per_s: t.get("ramp_down_rpm_per_s").map(number),
        deadband_rpm: whole("deadband_rpm").map(|n| n as u32),
        min_rpm: whole("min_rpm").map(|n| n as u32),
        max_rpm: whole("max_rpm").map(|n| n as u32),
        plausible_range_c: t.get("plausible_range_c").map(|v| {
            let list = v.as_array().unwrap();
            [number(&list[0]), number(&list[1])]
        }),
        sensor_grace_polls: whole("sensor_grace_polls").map(|n| n as u32),
        sensors: t
            .get("sensor")
            .map(|v| v.as_array().unwrap().iter().map(|e| entry(e.as_table().unwrap())).collect()),
    }
}

fn parse(body: &str) -> Result<Config, ConfigError> {
    Config::load(file(body))
}

#[test]
fn the_defaults_validate() {
    Config::default().validate().expect("the built-in defaults must be a valid config");
}

#[test]
fn non_finite_numbers_are_rejected() {
    // `nan` and `inf` are ordinary TOML floats, and NaN compares false against every bound.
    for body in [
        "ramp_up_rpm_per_s = nan".to_string(),
        "ramp_down_rpm_per_s = inf".to_string(),
        "plausible_range_c = [nan, 125.0]".to_string(),
        sensor("baseline_from = nan\ntarget = 80.0\ncritical = 95.0"),
        sensor("baseline_from = 60.0\ntarget = nan\ncritical = 95.0"),
        sensor("baseline_from = 60.0\ntarget = 80.0\ncritical = nan"),
        sensor("baseline_from = 60.0\ntarget = 80.0\ncritical = 95.0\nkp = nan"),
        sensor("baseline_from = 60.0\ntarget = 80.0\ncritical = 95.0\nki = -inf"),
    ] {
        assert!(parse(&body).is_err(), "should have been rejected: {body:?}");
    }
}

#[test]
fn a_baseline_that_starts_at_or_above_target_is_rejected() {
    assert!(parse(&sensor("baseline_from = 80.0\ntarget = 80.0\ncritical = 95.0")).is_err());
    assert!(parse(&sensor("baseline_from = 90.0\ntarget = 80.0\ncritical = 95.0")).is_err());
    assert!(parse(&sensor("baseline_from = 60.0\ntarget = 80.0\ncritical = 95.0")).is_ok());
}

#[test]
fn a_baseline_below_the_plausible_range_is_rejected() {
    assert!(parse(&sensor("baseline_from = 2.0\ntarget = 80.0\ncritical = 95.0")).is_err());
}

#[test]
fn a_sensor_that_names_no_baseline_ramps_from_the_bottom_of_the_plausible_range() {
    // More air than any measured configuration asks for, never less.
    let config = parse(&sensor("target = 80.0\ncritical = 95.0")).expect("valid");
    assert_eq!(f(config.sensors[0].baseline_from), PLAUSIBLE_LOW_C as f64);
    assert_eq!(f(config.sensors[0].baseline_from), 5.0);
}

#[test]
fn raising_the_plausible_floor_past_the_default_baseline_is_a_startup_error() {
    let body =
        format!("plausible_range_c = [40.0, 125.0]\n{}", sensor("target = 80.0\ncritical = 95.0"));
    assert!(parse(&body).is_err());
}

#[test]
fn an_empty_file_is_the_default() {
    let config = parse("").expect("an empty file is valid");
    let default = Config::default();
    assert_eq!(config.poll_interval_ms, 1000);
    assert_eq!(f(config.ramp_up_rpm_per_s), 3000.0);
    assert_eq!(f(config.ramp_down_rpm_per_s), 200.0);
    assert_eq!(config.deadband_rpm, 40);
    assert_eq!(config.min_rpm, None);
    assert_eq!(config.max_rpm, None);
    assert_eq!(config.plausible_range_c.map(f), [5.0, 125.0]);
    assert_eq!(config.sensor_grace_polls, 5);
    assert_eq!(config.poll_interval(), 1_000_000_000);
    assert_eq!(config.sensors.len(), default.sensors.len());
    let row = |s: &SensorConfig| {
        (
            s.source,
            s.key.clone(),
            [f(s.baseline_from), f(s.target), f(s.critical), f(s.kp), f(s.ki)],
            s.integral_limit_rpm,
            s.optional,
        )
    };
    let rows: Vec<_> = config.sensors.iter().map(row).collect();
    assert_eq!(rows, default.sensors.iter().map(row).collect::<Vec<_>>());
    assert_eq!(
        rows,
        vec![
            (
                Source::Coretemp,
                "Package id 0".to_string(),
                [60.0, 80.0, 95.0, 140.0, 30.0],
                None,
                false
            ),
            (Source::Applesmc, "TC0P".to_string(), [55.0, 75.0, 95.0, 140.0, 30.0], None, false),
            (
                Source::Applesmc,
                "TPCD".to_string(),
                [80.0, 90.0, 100.0, 200.0, 40.0],
                Some(1500),
                false
            ),
            (
                Source::Applesmc,
                "Ts0S".to_string(),
                [50.0, 55.0, 70.0, 250.0, 50.0],
                Some(1200),
                false
            ),
            (Source::Applesmc, "TM0P".to_string(), [55.0, 75.0, 95.0, 120.0, 25.0], None, true),
        ]
    );
}

#[test]
fn what_a_file_says_is_taken_over() {
    let body = format!(
        "poll_interval_ms = 250\nramp_up_rpm_per_s = 1500.5\nramp_down_rpm_per_s = 100\n\
         deadband_rpm = 7\nmin_rpm = 2500\nmax_rpm = 5000\nplausible_range_c = [1.0, 120.0]\n\
         sensor_grace_polls = 9\n{}",
        sensor(
            "baseline_from = 61.5\ntarget = 80\ncritical = 95.0\nkp = 1.5\nki = 0\n\
             integral_limit_rpm = 900\noptional = true"
        )
    );
    let config = parse(&body).expect("valid");
    assert_eq!(config.poll_interval(), 250_000_000);
    assert_eq!(f(config.ramp_up_rpm_per_s), 1500.5);
    assert_eq!(f(config.ramp_down_rpm_per_s), 100.0);
    assert_eq!((config.deadband_rpm, config.sensor_grace_polls), (7, 9));
    assert_eq!((config.min_rpm, config.max_rpm), (Some(2500), Some(5000)));
    assert_eq!(config.plausible_range_c.map(f), [1.0, 120.0]);
    let s = &config.sensors[0];
    assert_eq!(config.sensors.len(), 1);
    assert_eq!((f(s.baseline_from), f(s.target), f(s.critical)), (61.5, 80.0, 95.0));
    assert_eq!((f(s.kp), f(s.ki)), (1.5, 0.0));
    assert_eq!((s.integral_limit_rpm, s.optional), (Some(900), true));
}

#[test]
fn a_sensor_that_sets_no_gains_has_the_default_ones() {
    let config = parse(&sensor("target = 80.0\ncritical = 95.0")).expect("valid");
    assert_eq!((f(config.sensors[0].kp), f(config.sensors[0].ki)), (140.0, 30.0));
    assert!(!config.sensors[0].optional);
}

fn problem(body: &str) -> SensorProblem {
    match parse(&sensor(body)) {
        Err(ConfigError::Sensor { key, problem }) => {
            assert_eq!(key, "Package id 0");
            problem
        }
        other => panic!("{other:?}"),
    }
}

#[test]
fn each_mistake_is_told_from_the_others() {
    assert!(matches!(parse("poll_interval_ms = 0"), Err(ConfigError::ZeroPollInterval)));
    for (body, setting) in [
        ("ramp_up_rpm_per_s = nan", Setting::RampUp),
        ("ramp_down_rpm_per_s = inf", Setting::RampDown),
        ("plausible_range_c = [nan, 125.0]", Setting::PlausibleLow),
        ("plausible_range_c = [5.0, inf]", Setting::PlausibleHigh),
    ] {
        match parse(body) {
            Err(ConfigError::NotFinite { setting: s, .. }) => assert_eq!(s, setting),
            other => panic!("{other:?}"),
        }
    }
    assert!(matches!(parse("ramp_up_rpm_per_s = 0.0"), Err(ConfigError::RampNotPositive)));
    assert!(matches!(parse("ramp_down_rpm_per_s = -1.0"), Err(ConfigError::RampNotPositive)));
    assert!(matches!(
        parse("plausible_range_c = [9.0, 9.0]"),
        Err(ConfigError::RangeReversed { .. })
    ));
    assert!(matches!(
        parse("min_rpm = 3\nmax_rpm = 2"),
        Err(ConfigError::SpeedsReversed { min: 3, max: 2 })
    ));
    assert!(parse("min_rpm = 2\nmax_rpm = 2").is_ok());
    assert!(matches!(parse("sensor = []"), Err(ConfigError::NoSensors)));

    let at = "baseline_from = 60.0\ntarget = 80.0\ncritical = 95.0\n";
    for (body, setting) in [
        ("baseline_from = inf\ntarget = 80.0\ncritical = 95.0", SensorSetting::BaselineFrom),
        ("target = nan\ncritical = 95.0", SensorSetting::Target),
        ("target = 80.0\ncritical = -inf", SensorSetting::Critical),
        ("target = 80.0\ncritical = 95.0\nkp = inf", SensorSetting::Kp),
        ("target = 80.0\ncritical = 95.0\nki = nan", SensorSetting::Ki),
    ] {
        match problem(body) {
            SensorProblem::NotFinite { setting: s, .. } => assert_eq!(s, setting),
            other => panic!("{other:?}"),
        }
    }
    assert!(matches!(
        problem("baseline_from = 80.0\ntarget = 80.0\ncritical = 95.0"),
        SensorProblem::BaselineNotBelowTarget { .. }
    ));
    assert!(matches!(
        problem("target = 80.0\ncritical = 80.0"),
        SensorProblem::TargetNotBelowCritical { .. }
    ));
    assert!(matches!(
        problem("baseline_from = 4.9\ntarget = 80.0\ncritical = 95.0"),
        SensorProblem::BaselineBelowRange { .. }
    ));
    assert!(matches!(
        problem("target = 80.0\ncritical = 125.1"),
        SensorProblem::CriticalAboveRange { .. }
    ));
    assert!(matches!(
        problem(&format!("{at}integral_limit_rpm = 0")),
        SensorProblem::ZeroIntegralLimit
    ));
    assert!(parse(&sensor(&format!("{at}integral_limit_rpm = 0\nki = 0.0"))).is_ok());
    assert!(matches!(problem(&format!("{at}kp = -1.0")), SensorProblem::NegativeGain));
    assert!(matches!(problem(&format!("{at}ki = -1.0")), SensorProblem::NegativeGain));
}

#[test]
fn settings_are_named_as_in_a_file() {
    assert_eq!(Setting::RampUp.name(), "ramp_up_rpm_per_s");
    assert_eq!(Setting::RampDown.name(), "ramp_down_rpm_per_s");
    assert_eq!(Setting::PlausibleLow.name(), "plausible_range_c[0]");
    assert_eq!(Setting::PlausibleHigh.name(), "plausible_range_c[1]");
    assert_eq!(SensorSetting::BaselineFrom.name(), "baseline_from");
    assert_eq!(SensorSetting::Target.name(), "target");
    assert_eq!(SensorSetting::Critical.name(), "critical");
    assert_eq!(SensorSetting::Kp.name(), "kp");
    assert_eq!(SensorSetting::Ki.name(), "ki");
}
