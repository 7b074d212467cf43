//! The control loop.
use macfand::binary64::Binary64;
use macfand::config::{Config, SensorConfig};
use macfand::control::{Command, Governor, Problem, Reason, Sensor};
use macfand::daemon::{
    seconds, start_rpm, status, Daemon, Nap, NapStep, HEARTBEAT, MAX_WRITE_FAILURES,
    SIGNAL_GRANULARITY,
};
use macfand::sd::Notifier;
use macfand::sysfs::Source;

fn b(x: f64) -> Binary64 {
    Binary64::from_bits(x.to_bits())
}

fn f(x: Binary64) -> f64 {
    f64::from_bits(x.to_bits())
}

fn daemon(temp: f64) -> Daemon {
    let cfg = SensorConfig {
        source: Source::Applesmc,
        key: "TC0P".to_string(),
        baseline_from: b(70.0),
        target: b(75.0),
        critical: b(95.0),
        kp: b(100.0),
        ki: b(10.0),
        integral_limit_rpm: None,
        optional: false,
    };
    let mut s = Sensor::new(cfg, "/nonexistent");
    s.seed(b(temp));
    let config = Config::default();
    let governor = Governor::new(&config, vec![s], 2000, 6200, 2000);
    Daemon::new(governor, config.deadband_rpm, 0)
}

fn command(rpm: u32, reason: Reason) -> Command {
    Command { rpm, reason }
}

#[test]
fn a_time_is_the_number_of_seconds_that_the_standard_library_gives() {
    for (secs, nanos) in [
        (0, 0),
        (0, 1),
        (0, 20_000),
        (1, 500_000_000),
        (1, 1),
        (300, 999_999_999),
        (86_400 * 365, 123_456_789),
        (u64::MAX, 999_999_999),
        (9_007_199_254_740_993, 7),
    ] {
        let theirs = std::time::Duration::new(secs, nanos).as_secs_f64();
        assert_eq!(f(seconds(secs, nanos)), theirs, "{secs} s and {nanos} ns");
    }
}

#[test]
fn not_knowing_the_speed_means_taking_over_at_maximum() {
    assert_eq!(start_rpm(Some(3000), 6200), 3000);
    assert_eq!(start_rpm(None, 6200), 6200);
}

#[test]
fn a_poll_samples_commands_and_writes() {
    let mut d = daemon(60.0);
    let readings = vec![Ok(b(74.0))];
    assert!(d.can_poll(&readings, 1, 0));
    let poll = d.poll(&readings, 1, 0);
    assert!(poll.reports.is_empty());
    assert_eq!((poll.command.rpm, poll.write), (2672, true));
    assert_eq!(poll.command.reason, Reason::Steering("TC0P".to_string()));
    // A sensor that goes bad is reported, and its last reading stands.
    let poll = d.poll(&vec![Err("busy".to_string())], 1, 0);
    assert_eq!(poll.reports.len(), 1);
    assert_eq!(poll.reports[0].0, "TC0P");
    assert!(matches!(&poll.reports[0].1, Problem::Unreadable(e) if e == "busy"));
    assert_eq!(poll.command.rpm, 2672);
    assert!(!d.can_poll(&vec![], 1, 0));
    d.governor.sensors[0].consecutive_bad = u32::MAX;
    assert!(d.can_poll(&vec![Ok(b(74.0))], 1, 0));
    assert!(!d.can_poll(&vec![Ok(b(0.0))], 1, 0));
    assert!(!d.can_poll(&vec![Err("busy".to_string())], 1, 0));
}

#[test]
fn a_small_change_is_not_written() {
    let mut d = daemon(60.0);
    assert!(d.wants_write(&command(2000, Reason::Idle)));
    assert!(!d.record_write(2000, true));
    for (rpm, write) in [(2000, false), (2039, false), (2040, true), (1961, false), (1960, true)] {
        assert_eq!(d.wants_write(&command(rpm, Reason::Idle)), write, "{rpm}");
    }
    assert!(d.wants_write(&command(2000, Reason::Critical("x".to_string()))));
    assert!(d.wants_write(&command(2000, Reason::Failed("x".to_string()))));
    // An outstanding failure is retried, however small the change.
    assert!(!d.record_write(2000, false));
    assert!(d.wants_write(&command(2000, Reason::Idle)));
    assert!(!d.healthy());
}

#[test]
fn persistent_failures_end_the_daemon_and_one_success_starts_over() {
    let mut d = daemon(60.0);
    for _ in 1..MAX_WRITE_FAILURES {
        assert!(!d.record_write(3000, false));
    }
    assert!(!d.record_write(3000, true));
    assert!(d.healthy());
    assert_eq!(d.written, Some(3000));
    for _ in 1..MAX_WRITE_FAILURES {
        assert!(!d.record_write(4000, false));
    }
    assert!(d.record_write(4000, false), "the fifth in a row");
    assert_eq!(d.written, Some(3000));
}

#[test]
fn the_watchdog_is_withheld_while_writes_fail() {
    let mut d = daemon(60.0);
    assert_eq!(d.keepalive(Some(15_000_000)), Some(15_000_000_000));
    assert_eq!(d.keepalive(None), None);
    let notifier = Notifier::from_env(Some("/s".to_string()), Some("30000000".to_string()));
    assert_eq!(d.ping(&notifier).as_deref(), Some("WATCHDOG=1"));
    assert_eq!(d.ping(&Notifier::from_env(Some("/s".to_string()), None)), None);
    d.record_write(3000, false);
    assert_eq!(d.keepalive(Some(15_000_000)), None);
    assert_eq!(d.ping(&notifier), None);
}

#[test]
fn a_command_is_reported_when_its_reason_changes_or_after_a_while() {
    let mut d = daemon(60.0);
    let idle = command(2000, Reason::Idle);
    assert!(d.log(&idle, 5));
    assert!(!d.log(&command(2500, Reason::Idle), 6));
    assert!(!d.log(&idle, 5 + HEARTBEAT - 1));
    assert!(d.log(&idle, 5 + HEARTBEAT));
    assert!(d.log(&command(2500, Reason::Steering("a".to_string())), 6 + HEARTBEAT));
    assert!(!d.log(&command(2600, Reason::Steering("a".to_string())), 7 + HEARTBEAT));
    assert!(d.log(&command(2600, Reason::Steering("b".to_string())), 8 + HEARTBEAT));
}

#[test]
fn the_status_names_the_speed_and_the_reason() {
    assert_eq!(
        status(&command(3200, Reason::Steering("TPCD".to_string()))),
        "3200 rpm, steering on TPCD"
    );
}

#[test]
fn a_sleep_is_cut_into_slices() {
    let mut nap = Nap::new(0, 250_000_000, None);
    let slice = |nanos| NapStep::Sleep { ping: false, nanos };
    assert_eq!(nap.step(0, false), slice(SIGNAL_GRANULARITY));
    assert_eq!(nap.step(100_000_000, false), slice(SIGNAL_GRANULARITY));
    assert_eq!(nap.step(200_000_000, false), slice(50_000_000));
    assert_eq!(nap.step(250_000_000, false), NapStep::Wake);
    assert_eq!(nap.step(0, true), NapStep::Wake);
}

#[test]
fn a_long_sleep_keeps_the_watchdog_fed() {
    // Polling every minute under a watchdog that is to be pinged every second.
    let mut nap = Nap::new(0, 60_000_000_000, Some(1_000_000_000));
    let (mut now, mut last, mut pings) = (0u128, 0u128, 0);
    while let NapStep::Sleep { ping, nanos } = nap.step(now, false) {
        if ping {
            assert!(now - last <= 1_000_000_000 + SIGNAL_GRANULARITY);
            last = now;
            pings += 1;
        }
        now += nanos;
    }
    assert_eq!(now, 60_000_000_000);
    assert_eq!(pings, 59);
}
