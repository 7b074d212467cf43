//! The fans: finding, driving and releasing them.
use macfand::fan::{discover_fans, file_of_fan, index_of_fan, Fan, FanEntry, FanError};
use macfand::guard::{FanGuard, Round};
use macfand::sysfs::ReadError;

fn text(s: &str) -> Result<String, String> {
    Ok(s.to_string())
}

fn entry(name: &str, min: &str, max: &str, label: Option<&str>) -> Result<FanEntry, String> {
    Ok(FanEntry {
        name: name.to_string(),
        min: text(min),
        max: text(max),
        label: label.map(|l| l.to_string()),
    })
}

fn found(entries: Vec<Result<FanEntry, String>>) -> Result<Vec<Fan>, FanError> {
    discover_fans("/smc", &Ok(entries))
}

fn fans(bounds: &[(u32, u32)]) -> Vec<Fan> {
    found(
        bounds
            .iter()
            .enumerate()
            .map(|(i, (min, max))| {
                entry(&format!("fan{}_output", i + 1), &min.to_string(), &max.to_string(), None)
            })
            .collect(),
    )
    .unwrap()
}

#[test]
fn a_fan_is_found_with_its_files_and_bounds() {
    let fans = found(vec![
        entry("temp1_label", "", "", None),
        entry("fan1_output", "2000\n", "6200\n", Some("Exhaust \n")),
        entry("fan1_min", "", "", None),
    ])
    .unwrap();
    assert_eq!(fans.len(), 1);
    let fan = &fans[0];
    assert_eq!(fan.label, "Exhaust");
    assert_eq!(fan.input, "/smc/fan1_input");
    assert_eq!(fan.output, "/smc/fan1_output");
    assert_eq!(fan.control_mode, "/smc/fan1_manual");
    assert_eq!((fan.hw_min, fan.hw_max), (2000, 6200));
    assert_eq!(index_of_fan("fan12_output"), Some("12"));
    assert_eq!(index_of_fan("fan12_input"), None);
    assert_eq!(file_of_fan("/smc", "3", "_min"), "/smc/fan3_min");
}

#[test]
fn a_fan_without_a_label_is_called_by_its_number() {
    for label in [None, Some(""), Some(" \n")] {
        let fans = found(vec![entry("fan2_output", "1", "2", label)]).unwrap();
        assert_eq!(fans[0].label, "fan2");
    }
}

#[test]
fn fans_come_in_index_order() {
    let names = ["fan10_output", "fan2_output", "fanx_output", "fan1_output", "fan_output"];
    let fans = found(names.iter().map(|n| entry(n, "1", "2", None)).collect()).unwrap();
    let order: Vec<&str> = fans.iter().map(|f| f.index.as_str()).collect();
    assert_eq!(order, vec!["1", "2", "10", "", "x"]);
}

#[test]
fn a_bound_is_never_guessed() {
    let good = || entry("fan1_output", "2000", "6200", None);
    assert!(matches!(
        found(vec![good(), entry("fan2_output", "0", "6200", None)]),
        Err(FanError::ZeroMinimum { name }) if name == "fan2_output"
    ));
    assert!(matches!(
        found(vec![entry("fan2_output", "2000", "0", None)]),
        Err(FanError::ZeroMaximum { name }) if name == "fan2_output"
    ));
    assert!(matches!(
        found(vec![entry("fan1_output", "-3", "0", None)]),
        Err(FanError::Minimum { cause: ReadError::OutOfRange(-3), .. })
    ));
    let mut unreadable = entry("fan1_output", "2000", "", None).unwrap();
    unreadable.max = Err("busy".to_string());
    assert!(matches!(
        found(vec![Ok(unreadable)]),
        Err(FanError::Maximum { cause: ReadError::Unreadable(e), .. }) if e == "busy"
    ));
    assert!(matches!(found(vec![]), Err(FanError::NoFans)));
    assert!(matches!(found(vec![entry("temp1_label", "", "", None)]), Err(FanError::NoFans)));
    assert!(matches!(
        found(vec![good(), Err("io".to_string()), entry("fan2_output", "0", "0", None)]),
        Err(FanError::Entry(e)) if e == "io"
    ));
    assert!(matches!(
        discover_fans("/smc", &Err("denied".to_string())),
        Err(FanError::Unlisted(e)) if e == "denied"
    ));
}

#[test]
fn a_speed_is_held_to_the_bounds_of_the_fan() {
    let fans = fans(&[(2000, 6200)]);
    let fan = &fans[0];
    for (asked, written) in [(0, "2000"), (2000, "2000"), (3456, "3456"), (9999, "6200")] {
        let write = fan.set_rpm(asked);
        assert_eq!((write.path.as_str(), write.text.as_str()), ("/smc/fan1_output", written));
    }
    assert_eq!(fan.set_software_control(true).text, "1");
    assert_eq!(fan.set_software_control(false).text, "0");
    assert_eq!(fan.set_software_control(false).path, "/smc/fan1_manual");
    assert!(matches!(fan.rpm(&text("2345\n")), Ok(2345)));
    // What is written reads back.
    assert!(matches!(fan.rpm(&Ok(fan.set_rpm(3456).text)), Ok(3456)));
}

/// Plays a round with these outcomes; gives the paths that were attempted.
fn play(round: &mut Round, outcomes: &[bool]) -> Vec<String> {
    let mut attempts = Vec::new();
    for ok in outcomes {
        let Some(write) = round.next() else { break };
        attempts.push(write.path.clone());
        round.record(if *ok { Ok(()) } else { Err(format!("attempt {}", attempts.len())) });
    }
    attempts
}

#[test]
fn a_failed_write_is_tried_once_more() {
    let guard = FanGuard { fans: fans(&[(2000, 6200), (1000, 5000)]) };
    let mut round = guard.set_all(5500);
    assert_eq!(play(&mut round, &[false, true, true]).len(), 3);
    assert!(round.next().is_none());
    assert!(round.succeeded());
    let texts: Vec<&str> = round.writes.iter().map(|w| w.text.as_str()).collect();
    assert_eq!(texts, vec!["5500", "5000"]);
}

#[test]
fn commanding_stops_at_the_first_fan_that_fails() {
    let (guard, mut round) = FanGuard::engage(fans(&[(1, 2), (1, 2), (1, 2)]));
    assert_eq!(guard.fans.len(), 3);
    let attempts = play(&mut round, &[true, false, false, true]);
    assert_eq!(attempts, vec!["/smc/fan1_manual", "/smc/fan2_manual", "/smc/fan2_manual"]);
    assert!(round.next().is_none());
    assert!(!round.succeeded());
    assert_eq!(round.failures.len(), 1);
    assert_eq!(round.failures[0].at, 1);
    assert_eq!(round.failures[0].first, "attempt 2");
    assert_eq!(round.failures[0].second, "attempt 3");
}

#[test]
fn every_fan_is_given_back_even_after_one_fails() {
    let guard = FanGuard { fans: fans(&[(1, 2), (1, 2), (1, 2)]) };
    let mut round = guard.release();
    let attempts = play(&mut round, &[false, false, true, false, false]);
    assert_eq!(attempts.len(), 5);
    assert!(round.next().is_none());
    assert_eq!(guard.stranded(&round), vec!["fan1".to_string(), "fan3".to_string()]);
    assert!(round.writes.iter().all(|w| w.text == "0"));
}

#[test]
fn the_speed_to_take_over_at_is_that_of_the_fastest_fan() {
    let guard = FanGuard { fans: fans(&[(1, 2), (1, 2)]) };
    assert_eq!(guard.current_rpm(&vec![text("3000"), text("4100\n")]), Some(4100));
    assert_eq!(guard.current_rpm(&vec![text("3000"), text("-1")]), None);
    assert_eq!(guard.current_rpm(&vec![Err("busy".to_string()), text("4100")]), None);
    assert_eq!(FanGuard { fans: vec![] }.current_rpm(&vec![]), Some(0));
}
