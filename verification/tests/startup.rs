//! What is settled before a fan is touched.
use macfand::binary64::Binary64;
use macfand::config::{Config, SensorConfig};
use macfand::fan::Fan;
use macfand::startup::{
    default_config, load_config, resolve_sensors, sensor_path, sources, speed_range, ConfigSource,
    RangeError, Resolved, Skipped, StartError, Tables, Trouble,
};
use macfand::sysfs::{DiscoverError, Entry, Listing, ReadError, Source, Temps};

fn b(x: f64) -> Binary64 {
    Binary64::from_bits(x.to_bits())
}

fn f(x: Binary64) -> f64 {
    f64::from_bits(x.to_bits())
}

fn temps(source: Source, labels: &[&str]) -> Temps {
    let names = Ok(vec![format!("{}.0", source.as_str())]);
    let entries = labels
        .iter()
        .enumerate()
        .map(|(i, l)| Entry {
            name: format!("temp{i}_label"),
            input_exists: true,
            text: Some(l.to_string()),
        })
        .collect();
    Temps::discover(source, &names, &vec![Listing { dir: "/d".to_string(), entries }]).ok().unwrap()
}

fn config(optional: &[bool]) -> Config {
    let mut c = Config::default();
    let template = c.sensors[1].clone();
    c.sensors = optional
        .iter()
        .enumerate()
        .map(|(i, o)| SensorConfig { key: format!("S{i}"), optional: *o, ..template.clone() })
        .collect();
    c
}

fn tables(labels: &[&str]) -> Tables {
    vec![(Source::Applesmc, Ok(temps(Source::Applesmc, labels)))]
}

fn good(n: usize) -> Vec<Result<Binary64, ReadError>> {
    (0..n).map(|i| Ok(b(40.0 + i as f64))).collect()
}

fn refused(r: Resolved) -> Skipped {
    match r.outcome {
        Err(StartError::Sensor(s)) => s,
        Err(StartError::NothingToSteerOn) => panic!("no sensor was refused"),
        Ok(_) => panic!("nothing was refused"),
    }
}

#[test]
fn a_named_configuration_is_read_and_a_missing_default_is_no_error() {
    assert_eq!(default_config(), "/etc/macfand.toml");
    let named = load_config(Some("/tmp/x".to_string()), false);
    assert_eq!(named, ConfigSource::File("/tmp/x".to_string()));
    assert_eq!(load_config(None, true), ConfigSource::File("/etc/macfand.toml".to_string()));
    assert_eq!(load_config(None, false), ConfigSource::BuiltIn);
}

#[test]
fn only_the_drivers_that_are_needed_are_looked_for() {
    assert_eq!(sources(&Config::default()), vec![Source::Applesmc, Source::Coretemp]);
    assert_eq!(sources(&config(&[false, true])), vec![Source::Applesmc]);
    assert_eq!(sources(&config(&[])), vec![]);
}

#[test]
fn every_sensor_that_reads_is_steered_on() {
    let c = config(&[false, true, false]);
    let t = tables(&["S2", "S0", "S1"]);
    assert_eq!(sensor_path(&c.sensors[0], &t).as_deref(), Some("/d/temp1_input"));
    let r = resolve_sensors(&c, &t, &good(3));
    assert!(r.skipped.is_empty());
    let sensors = r.outcome.ok().unwrap();
    let seen: Vec<(&str, &str, f64)> = sensors
        .iter()
        .map(|s| (s.key(), s.path.as_str(), f(s.last_reading().unwrap())))
        .collect();
    assert_eq!(
        seen,
        vec![
            ("S0", "/d/temp1_input", 40.0),
            ("S1", "/d/temp2_input", 41.0),
            ("S2", "/d/temp0_input", 42.0)
        ]
    );
}

#[test]
fn a_missing_sensor_is_skipped_only_where_it_is_optional() {
    let t = tables(&["S0"]);
    assert_eq!(sensor_path(&config(&[false, false]).sensors[1], &t), None);
    let s = refused(resolve_sensors(&config(&[false, false]), &t, &good(2)));
    assert_eq!((s.key.as_str(), s.source), ("S1", Source::Applesmc));
    assert!(matches!(s.trouble, Trouble::Absent));
    let r = resolve_sensors(&config(&[false, true]), &t, &good(2));
    assert_eq!(r.skipped.len(), 1);
    assert_eq!(r.skipped[0].key, "S1");
    assert_eq!(r.outcome.ok().unwrap().len(), 1);
}

#[test]
fn a_missing_driver_is_fatal_only_to_sensors_that_are_needed() {
    let mut c = config(&[false, true]);
    c.sensors[1].source = Source::Coretemp;
    let mut t = tables(&["S0"]);
    t.push((Source::Coretemp, Err(DiscoverError::NoDevice)));
    assert_eq!(sensor_path(&c.sensors[1], &t), None);
    let r = resolve_sensors(&c, &t, &good(2));
    assert!(r.outcome.is_ok());
    assert!(matches!(r.skipped[0].trouble, Trouble::Unavailable));
    c.sensors[1].optional = false;
    let s = refused(resolve_sensors(&c, &t, &good(2)));
    assert!(matches!(s.trouble, Trouble::Unavailable));
    assert_eq!(s.source, Source::Coretemp);
}

#[test]
fn an_implausible_sensor_is_skipped_only_where_it_is_optional() {
    let t = tables(&["S0", "S1"]);
    for odd in [0.0, 4.9, 125.1, f64::NAN] {
        let readings = || vec![Ok(b(50.0)), Ok(b(odd))];
        let s = refused(resolve_sensors(&config(&[false, false]), &t, &readings()));
        assert!(matches!(s.trouble, Trouble::Implausible(x) if x.to_bits() == odd.to_bits()));
        let r = resolve_sensors(&config(&[false, true]), &t, &readings());
        assert_eq!(r.outcome.ok().unwrap().len(), 1);
    }
    // The ends of the range are in it.
    let r = resolve_sensors(&config(&[false, false]), &t, &vec![Ok(b(5.0)), Ok(b(125.0))]);
    assert_eq!(r.outcome.ok().unwrap().len(), 2);
}

#[test]
fn a_sensor_that_is_there_and_does_not_read_is_fatal_even_where_it_is_optional() {
    let readings = || vec![Ok(b(50.0)), Err(ReadError::Unreadable("dead".to_string()))];
    for optional in [false, true] {
        let s = refused(resolve_sensors(&config(&[false, optional]), &tables(&["S0", "S1"]), &readings()));
        assert!(matches!(s.trouble, Trouble::Unreadable(ReadError::Unreadable(e)) if e == "dead"));
    }
}

#[test]
fn the_first_refusal_is_the_one_that_is_told() {
    let r = resolve_sensors(&config(&[true, false, true]), &tables(&["S9"]), &good(3));
    // What was skipped on the way there is told too.
    assert_eq!(r.skipped.len(), 1);
    assert_eq!(r.skipped[0].key, "S0");
    assert_eq!(refused(r).key, "S1");
}

#[test]
fn a_daemon_with_nothing_to_steer_on_does_not_start() {
    let r = resolve_sensors(&config(&[true, true]), &tables(&["S9"]), &good(2));
    assert!(matches!(r.outcome, Err(StartError::NothingToSteerOn)));
    assert_eq!(r.skipped.len(), 2);
}

fn fan(hw_min: u32, hw_max: u32) -> Fan {
    Fan {
        label: "fan".to_string(),
        index: "1".to_string(),
        input: String::new(),
        output: String::new(),
        control_mode: String::new(),
        hw_min,
        hw_max,
    }
}

fn range(min: Option<u32>, max: Option<u32>, fans: &[(u32, u32)]) -> Result<(u32, u32), RangeError> {
    let c = Config { min_rpm: min, max_rpm: max, ..Config::default() };
    speed_range(&c, &fans.iter().map(|(a, z)| fan(*a, *z)).collect())
}

#[test]
fn the_range_is_narrowed_and_never_widened() {
    assert_eq!(range(None, None, &[(2000, 6200)]), Ok((2000, 6200)));
    assert_eq!(range(Some(2500), Some(5000), &[(2000, 6200)]), Ok((2500, 5000)));
    assert_eq!(range(Some(100), Some(9000), &[(2000, 6200)]), Ok((2000, 6200)));
    // With more than one fan the range is the overlap.
    assert_eq!(range(None, None, &[(2000, 6200), (1500, 5500), (1800, 6000)]), Ok((2000, 5500)));
}

#[test]
fn a_range_that_is_none_is_refused() {
    assert_eq!(range(None, None, &[]), Err(RangeError::Unusable { min: 0, max: 0 }));
    assert_eq!(range(None, None, &[(5, 5)]), Err(RangeError::Unusable { min: 5, max: 5 }));
    assert_eq!(
        range(None, None, &[(2000, 3000), (4000, 6000)]),
        Err(RangeError::Unusable { min: 4000, max: 3000 })
    );
    assert_eq!(
        range(Some(7000), None, &[(2000, 6200)]),
        Err(RangeError::NoRange { min: 6200, max: 6200 })
    );
    assert_eq!(
        range(Some(3000), Some(2500), &[(2000, 6200)]),
        Err(RangeError::NoRange { min: 3000, max: 3000 })
    );
}
