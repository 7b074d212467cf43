//! The control policy.
use macfand::binary64::Binary64;
use macfand::config::{Config, SensorConfig};
use macfand::control::{Governor, Problem, Reason, Sensor};
use macfand::sysfs::Source;

fn b(x: f64) -> Binary64 {
    Binary64::from_bits(x.to_bits())
}

fn f(x: Binary64) -> f64 {
    f64::from_bits(x.to_bits())
}

fn cfg(key: &str, target: f64, critical: f64) -> SensorConfig {
    SensorConfig {
        source: Source::Applesmc,
        key: key.into(),
        // Deliberately shallow: most of these tests are about the controller, and a wide ramp
        // would answer for it.
        baseline_from: b(target - 5.0),
        target: b(target),
        critical: b(critical),
        kp: b(100.0),
        ki: b(10.0),
        integral_limit_rpm: None,
        optional: false,
    }
}

fn sensor(key: &str, target: f64, critical: f64, temp: f64) -> Sensor {
    let mut s = Sensor::new(cfg(key, target, critical), "/nonexistent");
    s.last_good = Some(b(temp));
    s
}

fn unlimited() -> Config {
    Config {
        ramp_up_rpm_per_s: b(100_000.0),
        ramp_down_rpm_per_s: b(100_000.0),
        ..Config::default()
    }
}

fn governor(sensors: Vec<Sensor>) -> Governor {
    Governor::new(&unlimited(), sensors, 2000, 6200, 2000)
}

#[test]
fn sits_at_minimum_while_everything_is_below_target() {
    let mut g = governor(vec![sensor("TC0P", 75.0, 95.0, 60.0)]);
    let cmd = g.step(b(1.0));
    assert_eq!(cmd.rpm, 2000);
    assert_eq!(cmd.reason, Reason::Idle);
}

#[test]
fn the_hottest_sensor_wins_not_the_average() {
    // An averaging daemon would idle here; this must steer on the hot one.
    let mut g = governor(vec![
        sensor("Package id 0", 80.0, 95.0, 50.0),
        sensor("TPCD", 87.0, 100.0, 92.0),
    ]);
    let cmd = g.step(b(1.0));
    assert!(cmd.rpm > 2000, "expected the hot sensor to drive the fan, got {}", cmd.rpm);
    assert_eq!(cmd.reason, Reason::Steering("TPCD".into()));
}

#[test]
fn a_sensor_over_critical_goes_straight_to_maximum() {
    let mut g = governor(vec![sensor("Package id 0", 80.0, 95.0, 96.0)]);
    let cmd = g.step(b(1.0));
    assert_eq!(cmd.rpm, 6200);
    assert_eq!(cmd.reason, Reason::Critical("Package id 0".into()));
}

#[test]
fn an_unreadable_sensor_fails_to_maximum_not_to_minimum() {
    let mut s = sensor("TPCD", 87.0, 100.0, 85.0);
    s.failed = true;
    let mut g = governor(vec![s]);
    let cmd = g.step(b(1.0));
    assert_eq!(cmd.rpm, 6200);
    assert_eq!(cmd.reason, Reason::Failed("TPCD".into()));
}

#[test]
fn an_implausible_reading_is_not_treated_as_cold() {
    // Held below the grace count the last good reading stands; past it the sensor fails safe.
    let mut s = Sensor::new(cfg("TCTD", 80.0, 95.0), "/nonexistent");
    s.last_good = Some(b(90.0));
    for _ in 0..=5 {
        assert!(!s.is_failed());
        s.sample(Err("no such file".to_string()), [b(5.0), b(125.0)], 5);
    }
    assert!(s.is_failed(), "a sensor that never reads again must fail safe");
}

#[test]
fn the_baseline_ramp_asks_for_air_below_target_instead_of_the_floor() {
    // The ramp starts five degrees below the target here, so 74 degrees is 4 degrees into the 25
    // that it takes to critical.
    let mut g = governor(vec![sensor("TC0P", 75.0, 95.0, 74.0)]);
    let cmd = g.step(b(1.0));
    assert_eq!(cmd.rpm, 2672, "2000 + (74-70)/(95-70) * 4200");
    assert_eq!(cmd.reason, Reason::Steering("TC0P".into()));
}

#[test]
fn the_baseline_ramp_never_falls_as_a_sensor_heats() {
    // Steer up, never down: no dip where the ramp hands over to the controller at target.
    let mut previous = 0;
    for tenths in 500..=949 {
        let temp = tenths as f64 / 10.0;
        let mut g = governor(vec![sensor("TC0P", 75.0, 95.0, temp)]);
        let rpm = g.step(b(1.0)).rpm;
        assert!(rpm >= previous, "demand fell from {previous} to {rpm} at {temp}C");
        previous = rpm;
    }
}

#[test]
fn the_integral_closes_a_gap_that_proportional_alone_leaves_open() {
    // A sensor parked 2 degrees over target: the integral keeps pushing past what the gain and
    // the ramp contribute.
    let mut g = governor(vec![sensor("TC0P", 75.0, 95.0, 77.0)]);
    let first = g.step(b(1.0)).rpm;
    let mut last = first;
    for _ in 0..200 {
        last = g.step(b(1.0)).rpm;
    }
    assert!(last > first, "integral should keep raising the demand ({first} -> {last})");
}

#[test]
fn the_integral_cannot_wind_up_beyond_the_usable_range() {
    let mut g = governor(vec![sensor("TC0P", 75.0, 94.0, 93.0)]);
    // An hour above target must not bank a term that then takes an hour to unwind.
    for _ in 0..3_600 {
        g.step(b(1.0));
    }
    g.sensors[0].last_good = Some(b(50.0));
    let mut seconds = 0;
    while g.step(b(1.0)).rpm > 2000 {
        seconds += 1;
        assert!(seconds < 60, "still spun up {seconds}s after cooling");
    }
}

#[test]
fn a_capped_sensor_cannot_pin_the_fan_at_maximum_on_its_own() {
    let mut c = cfg("TPCD", 87.0, 100.0);
    c.kp = b(0.0);
    c.integral_limit_rpm = Some(1500);
    // Started high enough that its own ramp asks for less than the cap at 89 degrees, so this
    // measures the cap and not the ramp.
    c.baseline_from = b(85.0);
    let mut s = Sensor::new(c, "/nonexistent");
    s.last_good = Some(b(89.0));
    let mut g = governor(vec![s]);
    for _ in 0..3_600 {
        g.step(b(1.0));
    }
    assert_eq!(g.step(b(1.0)).rpm, 3500, "capped integral should stop at min + limit");
}

#[test]
fn a_capped_sensor_still_goes_to_maximum_when_it_is_critical() {
    // The cap must never get in the way of a real emergency.
    let mut c = cfg("TPCD", 87.0, 100.0);
    c.integral_limit_rpm = Some(1500);
    let mut s = Sensor::new(c, "/nonexistent");
    s.last_good = Some(b(101.0));
    let mut g = governor(vec![s]);
    assert_eq!(g.step(b(1.0)).rpm, 6200);
}

#[test]
fn a_critical_excursion_leaves_nothing_charged_behind_it() {
    // A sensor that settles at exactly its target has an error of zero, so anything the excursion
    // banked in the integral would stay banked.
    let mut g = governor(vec![sensor("TC0P", 75.0, 95.0, 96.0)]);
    assert_eq!(g.step(b(1.0)).rpm, 6200, "critical must still go to maximum");
    g.sensors[0].last_good = Some(b(75.0));
    let cmd = g.step(b(1.0));
    assert_eq!(cmd.rpm, 2840, "2000 + (75-70)/(95-70) * 4200");
    assert_eq!(cmd.reason, Reason::Steering("TC0P".into()));
}

#[test]
fn the_shipped_defaults_do_not_idle_the_fan_at_the_measured_operating_points() {
    // Measured temperatures, in the order the default sensors are configured.
    for (what, temps, expected) in [
        ("light load", [70.0, 64.0, 85.0, 51.0, 54.0], 3200),
        ("four threads flat out", [86.0, 78.0, 88.0, 52.0, 54.0], 5120),
        ("sustained hot session", [77.0, 70.0, 91.0, 54.0, 54.0], 4310),
    ] {
        let sensors = Config::default()
            .sensors
            .into_iter()
            .zip(temps)
            .map(|(cfg, temp)| {
                let mut s = Sensor::new(cfg, "/nonexistent");
                s.last_good = Some(b(temp));
                s
            })
            .collect();
        // Rate limiting is not what is under test here.
        let config = Config {
            ramp_up_rpm_per_s: b(100_000.0),
            ramp_down_rpm_per_s: b(100_000.0),
            ..Config::default()
        };
        let mut g = Governor::new(&config, sensors, 2000, 6200, 2000);
        assert_eq!(g.step(b(1.0)).rpm, expected, "{what}");
    }
}

#[test]
fn ramp_down_is_rate_limited() {
    let config = Config {
        ramp_up_rpm_per_s: b(100_000.0),
        ramp_down_rpm_per_s: b(200.0),
        ..Config::default()
    };
    let mut g =
        Governor::new(&config, vec![sensor("TC0P", 75.0, 96.0, 95.0)], 2000, 6200, 2000);
    // Hold it above target until the controller has saturated.
    while g.step(b(1.0)).rpm < 6200 {}
    g.sensors[0].last_good = Some(b(40.0));
    let cmd = g.step(b(1.0));
    assert_eq!(cmd.rpm, 6000, "should fall by at most ramp_down_rpm_per_s in one second");
}

#[test]
fn ramp_up_is_fast_enough_to_reach_maximum_in_a_couple_of_seconds() {
    // A load step can put the package up 20 degrees inside five seconds, so the fan must not be
    // the bottleneck getting to full speed.
    let config = Config::default();
    let mut g =
        Governor::new(&config, vec![sensor("Package id 0", 80.0, 95.0, 96.0)], 2000, 6200, 2000);
    let mut elapsed = 0.0;
    while g.step(b(0.1)).rpm < 6200 {
        elapsed += 0.1;
        assert!(elapsed < 5.0, "took too long to reach maximum");
    }
}

#[test]
fn a_critical_sensor_reaches_maximum_on_the_very_first_poll() {
    // The first poll comes after a few microseconds, so the rate limit for it is a few rpm.
    let config = Config::default();
    let mut g =
        Governor::new(&config, vec![sensor("Package id 0", 80.0, 95.0, 99.0)], 2000, 6200, 2000);
    let cmd = g.step(b(0.000_02));
    assert_eq!(cmd.rpm, 6200, "a critical sensor must not be slew limited");
    assert_eq!(cmd.reason, Reason::Critical("Package id 0".into()));
}

#[test]
fn a_failed_sensor_reaches_maximum_on_the_very_first_poll() {
    let config = Config::default();
    let mut s = sensor("TPCD", 87.0, 100.0, 85.0);
    s.failed = true;
    let mut g = Governor::new(&config, vec![s], 2000, 6200, 2000);
    assert_eq!(g.step(b(0.000_02)).rpm, 6200);
}

#[test]
fn taking_over_starts_from_the_speed_the_fan_is_already_running_at() {
    let config = Config::default();
    let mut g =
        Governor::new(&config, vec![sensor("Package id 0", 80.0, 95.0, 82.0)], 2000, 6200, 5000);
    assert_eq!(g.step(b(0.000_02)).rpm, 5000);
}

#[test]
fn a_start_speed_outside_the_configured_range_is_clamped_into_it() {
    let config = Config::default();
    let mut g =
        Governor::new(&config, vec![sensor("Package id 0", 80.0, 95.0, 50.0)], 2000, 4000, 6200);
    assert_eq!(g.step(b(0.000_02)).rpm, 4000);
}

#[test]
fn a_bad_sample_is_reported_once_and_ridden_out() {
    let range = [b(5.0), b(125.0)];
    let mut s = sensor("TPCD", 87.0, 100.0, 85.0);
    match s.sample(Ok(b(0.0)), range, 2) {
        Some(Problem::Implausible(t)) => assert_eq!(f(t), 0.0),
        other => panic!("{other:?}"),
    }
    assert!(s.sample(Err("busy".to_string()), range, 2).is_none());
    assert!(!s.is_failed());
    assert_eq!(s.last_reading().map(f), Some(85.0));
    assert!(s.sample(Ok(b(f64::NAN)), range, 2).is_none());
    assert!(s.is_failed());
    // One good reading brings it back, and the next bad one is reported again.
    assert!(s.sample(Ok(b(125.0)), range, 2).is_none());
    assert!(!s.is_failed());
    assert_eq!(s.last_reading().map(f), Some(125.0));
    match s.sample(Err("gone".to_string()), range, 2) {
        Some(Problem::Unreadable(e)) => assert_eq!(e, "gone"),
        other => panic!("{other:?}"),
    }
}

#[test]
fn the_governor_reports_the_sensors_that_go_bad_by_name() {
    let mut g = governor(vec![
        sensor("a", 75.0, 95.0, 60.0),
        sensor("b", 75.0, 95.0, 60.0),
        sensor("c", 75.0, 95.0, 60.0),
    ]);
    let reports =
        g.sample(&vec![Err("x".to_string()), Ok(b(80.0)), Ok(b(500.0))]);
    assert_eq!(reports.len(), 2);
    assert_eq!(reports[0].0, "a");
    assert!(matches!(&reports[0].1, Problem::Unreadable(e) if e == "x"));
    assert_eq!(reports[1].0, "c");
    assert!(matches!(&reports[1].1, Problem::Implausible(t) if f(*t) == 500.0));
    assert_eq!(g.sensors[1].last_reading().map(f), Some(80.0));
    assert_eq!(g.sensors[2].last_reading().map(f), Some(60.0));
}

#[test]
fn a_sensor_that_has_never_read_fails_safe() {
    let mut g = governor(vec![Sensor::new(cfg("TPCD", 87.0, 100.0), "/nonexistent")]);
    let cmd = g.step(b(1.0));
    assert_eq!((cmd.rpm, cmd.reason), (6200, Reason::Failed("TPCD".into())));
}

#[test]
fn an_urgent_sensor_demands_the_maximum_whatever_the_range() {
    let mut failed = sensor("f", 80.0, 95.0, 50.0);
    failed.failed = true;
    let never = Sensor::new(cfg("n", 80.0, 95.0), "/nonexistent");
    for mut s in [failed, never, sensor("c", 80.0, 95.0, 95.0)] {
        assert_eq!(f(s.demand(b(1.0), b(6200.0), b(2000.0)).0), 2000.0);
    }
}

#[test]
fn the_last_urgent_sensor_is_named_where_several_ask_for_the_maximum() {
    let hot = |key: &str| sensor(key, 80.0, 95.0, 96.0);
    let mut failed = sensor("f", 80.0, 95.0, 50.0);
    failed.failed = true;
    let cmd = governor(vec![hot("a"), failed, hot("b")]).step(b(1.0));
    assert_eq!(cmd.reason, Reason::Critical("b".into()));
    // Among those that merely steer, the first.
    let warm = |key: &str| sensor(key, 75.0, 95.0, 74.0);
    let cmd = governor(vec![warm("a"), warm("b")]).step(b(1.0));
    assert_eq!(cmd.reason, Reason::Steering("a".into()));
}

#[test]
fn the_terms_of_a_demand_add_up() {
    // 10 degrees over target: 2000 + 100 * 10 + 10 * 10 * 2, and the ramp asks for less.
    let mut c = cfg("TC0P", 75.0, 95.0);
    c.baseline_from = b(84.0);
    let mut s = Sensor::new(c, "/nonexistent");
    s.seed(b(85.0));
    let (rpm, reason) = s.demand(b(2.0), b(2000.0), b(6200.0));
    assert_eq!(f(rpm), 3200.0);
    assert_eq!(reason, Reason::Steering("TC0P".into()));
    assert_eq!(f(s.integral), 200.0);
    assert_eq!(f(s.integral_ceiling(b(2000.0), b(6200.0))), 4200.0);
    s.cfg.integral_limit_rpm = Some(1500);
    assert_eq!(f(s.integral_ceiling(b(2000.0), b(6200.0))), 1500.0);
    assert_eq!(f(s.integral_ceiling(b(2000.0), b(3000.0))), 1000.0);
    // The ramp, at its ends and beyond.
    assert_eq!(f(s.baseline(b(84.0), b(2000.0), b(6200.0))), 2000.0);
    assert_eq!(f(s.baseline(b(20.0), b(2000.0), b(6200.0))), 2000.0);
    assert_eq!(f(s.baseline(b(95.0), b(2000.0), b(6200.0))), 6200.0);
    assert_eq!(f(s.baseline(b(120.0), b(2000.0), b(6200.0))), 6200.0);
}

#[test]
fn the_integral_follows_the_error() {
    let mut s = sensor("TC0P", 75.0, 95.0, 77.0);
    let mut integral = |temp: f64| {
        s.last_good = Some(b(temp));
        s.demand(b(1.0), b(2000.0), b(6200.0));
        f(s.integral)
    };
    assert_eq!(integral(77.0), 20.0);
    assert_eq!(integral(77.0), 40.0);
    assert_eq!(integral(75.0), 40.0);
    assert_eq!(integral(74.0), 30.0);
    assert_eq!(integral(60.0), 0.0);
    // A critical sensor leaves it as it was.
    assert_eq!(integral(80.0), 50.0);
    assert_eq!(integral(96.0), 50.0);
}

#[test]
fn the_integral_reaches_its_ceiling_and_unwinds_in_bounded_time() {
    // Two degrees off target at 10 rpm per degree and second: 20 rpm at each poll of a second.
    let mut s = sensor("TC0P", 75.0, 95.0, 77.0);
    let mut previous = 0.0;
    for poll in 1..=400 {
        let rpm = f(s.demand(b(1.0), b(2000.0), b(6200.0)).0);
        assert!(rpm >= previous, "the demand fell at poll {poll}");
        previous = rpm;
        assert_eq!(f(s.integral), (20.0 * poll as f64).min(4200.0));
    }
    assert_eq!(previous, 6200.0, "2000 + 100 * 2 + 4200, held to the range");
    // However long that took, it is gone after 4200 / 20 polls, and the ramp is left.
    s.last_good = Some(b(73.0));
    for _ in 1..=210 {
        s.demand(b(1.0), b(2000.0), b(6200.0));
    }
    assert_eq!(f(s.integral), 0.0);
    let (rpm, reason) = s.demand(b(1.0), b(2000.0), b(6200.0));
    assert_eq!(f(rpm), 2504.0, "2000 + (73-70)/(95-70) * 4200");
    assert_eq!(reason, Reason::Steering("TC0P".into()));
}

#[test]
fn a_sensor_is_idle_exactly_where_it_demands_the_floor() {
    for tenths in 200..950 {
        let mut s = sensor("TC0P", 75.0, 95.0, tenths as f64 / 10.0);
        s.integral = b((tenths % 7) as f64 * 200.0);
        s.cfg.integral_limit_rpm = if tenths % 2 == 0 { Some(900) } else { None };
        let temp = s.last_good.unwrap();
        let ramp = f(s.baseline(temp, b(2000.0), b(6200.0)));
        let ceiling = f(s.integral_ceiling(b(2000.0), b(6200.0)));
        let (rpm, reason) = s.demand(b(0.7), b(2000.0), b(6200.0));
        let most = ramp.max(2000.0 + 100.0 * (f(temp) - 75.0) + ceiling);
        assert!(ramp <= f(rpm) && f(rpm) <= most, "at {}", f(temp));
        assert_eq!(reason == Reason::Idle, f(rpm) == 2000.0);
    }
}

#[test]
fn commands_change_by_no_more_than_the_ramps_and_one() {
    // Odd times between polls, and a load that comes and goes.
    let config = Config::default();
    let mut g =
        Governor::new(&config, vec![sensor("TC0P", 75.0, 95.0, 60.0)], 2000, 6200, 2345);
    let mut was = 2345.0;
    for poll in 0..5000u32 {
        let dt = (1 + poll * 7919 % 1000) as f64 / 997.0;
        g.sensors[0].last_good = Some(b(60.0 + (poll / 50 * 31 % 34) as f64));
        let cmd = g.step(b(dt));
        let now = cmd.rpm as f64;
        assert!((2000..=6200).contains(&cmd.rpm));
        assert!(was - now <= 200.0 * dt + 1.0, "fell from {was} to {now} in {dt}s");
        assert!(now - was <= 3000.0 * dt + 1.0, "rose from {was} to {now} in {dt}s");
        was = now;
    }
}

#[test]
fn the_cooler_of_two_sensors_demands_no_more() {
    // Over the whole plausible range, past critical, from a charged integral.
    for tenths in 51..1250 {
        let demand = |t: f64| {
            let mut s = sensor("TC0P", 75.0, 95.0, t);
            s.integral = b(700.0);
            f(s.demand(b(0.3), b(2000.0), b(6200.0)).0)
        };
        let (cooler, hotter) = ((tenths - 1) as f64 / 10.0, tenths as f64 / 10.0);
        assert!(demand(cooler) <= demand(hotter), "at {hotter}C");
    }
}

#[test]
fn a_speed_rises_no_faster_than_the_ramp() {
    let config = Config::default();
    let mut g =
        Governor::new(&config, vec![sensor("TC0P", 75.0, 95.0, 94.0)], 2000, 6200, 2000);
    assert_eq!(g.step(b(0.5)).rpm, 3500, "half a second at 3000 rpm per second");
    assert!(g.can_step(b(0.0)));
    assert!(!g.can_step(b(-1.0)));
    assert!(!g.can_step(b(f64::NAN)));
}

#[test]
fn reasons_are_put_in_words() {
    assert_eq!(Reason::Idle.describe(), "every sensor cold enough to ask for nothing");
    assert_eq!(Reason::Steering("TPCD".into()).describe(), "steering on TPCD");
    assert_eq!(Reason::Critical("TPCD".into()).describe(), "TPCD above critical");
    assert_eq!(Reason::Failed("TPCD".into()).describe(), "TPCD unreadable, failing safe");
    assert!(Reason::Idle.same(&Reason::Idle));
    assert!(!Reason::Steering("a".into()).same(&Reason::Steering("b".into())));
    assert!(!Reason::Steering("a".into()).same(&Reason::Critical("a".into())));
    assert!(Reason::Failed("a".into()).urgent() && !Reason::Idle.urgent());
}
