//! What is said of sensors and fans.
use macfand::binary64::Binary64;
use macfand::config::Config;
use macfand::control::{Command, Reason, Sensor};
use macfand::fan::Fan;
use macfand::report::{
    announcement, command_line, driven_by_software, fan_line, note, readings, sensor_line, Note,
};
use macfand::sysfs::{ReadError, Source};
use macfand::text::{decimal_text, fill_left, fill_right, join, precedes, trim};

fn b(x: f64) -> Binary64 {
    Binary64::from_bits(x.to_bits())
}

fn text(s: &str) -> Result<String, String> {
    Ok(s.to_string())
}

fn fan(label: &str) -> Fan {
    Fan {
        label: label.to_string(),
        index: "1".to_string(),
        input: String::new(),
        output: String::new(),
        control_mode: String::new(),
        hw_min: 2000,
        hw_max: 6200,
    }
}

#[test]
fn readings_are_listed_in_order() {
    let config = Config::default();
    let mut sensors: Vec<Sensor> =
        config.sensors.iter().take(3).map(|c| Sensor::new(c.clone(), "/x")).collect();
    sensors[0].seed(b(69.4));
    sensors[1].seed(b(50.0));
    sensors[1].failed = true;
    let celsius = vec!["69".to_string(), "50".to_string(), String::new()];
    assert_eq!(readings(&sensors, &celsius), "Package id 0=69C TC0P=failed TPCD=?");
    assert_eq!(readings(&vec![], &vec![]), "");
}

#[test]
fn a_sensor_is_noted_as_implausible_or_as_steered_on() {
    let config = Config::default();
    let noted = |source, label, reading: Result<f64, ReadError>| {
        note(&config, source, label, &reading.map(b))
    };
    assert_eq!(noted(Source::Applesmc, "TC0J", Ok(1.5)), Note::Implausible);
    assert_eq!(noted(Source::Applesmc, "TC0P", Ok(1.5)), Note::Implausible);
    assert_eq!(noted(Source::Applesmc, "TC0P", Ok(69.0)), Note::SteeringOnThis);
    assert_eq!(noted(Source::Coretemp, "TC0P", Ok(69.0)), Note::Nothing);
    assert_eq!(noted(Source::Applesmc, "TA0P", Ok(40.0)), Note::Nothing);
    let dead = Err(ReadError::Unreadable("dead".to_string()));
    assert_eq!(noted(Source::Applesmc, "TPCD", dead), Note::SteeringOnThis);
}

#[test]
fn lines_on_sensors_and_fans_are_aligned() {
    assert_eq!(
        sensor_line("TC0J", "   1.5 C", Note::Implausible),
        format!("  {:<14} {:6.1} C{}", "TC0J", 1.5, "  (implausible — likely not populated)")
    );
    assert_eq!(
        sensor_line("TC0P", "  69.0 C", Note::SteeringOnThis),
        "  TC0P             69.0 C  (steering on this)"
    );
    assert_eq!(sensor_line("a rather long label", "x", Note::Nothing), "  a rather long label x");
    for (rpm, mode, driver) in [("2001", text("1\n"), "macfand"), ("12345", text("0"), "SMC")] {
        assert_eq!(
            fan_line(&fan("Exhaust"), &text(rpm), &mode),
            format!("  {:<14} {rpm:>5} rpm   range 2000-6200 rpm   {driver}", "Exhaust")
        );
    }
    assert_eq!(
        fan_line(&fan("é"), &Err("busy".to_string()), &Err("gone".to_string())),
        format!("  {:<14} {:>5} rpm   range 2000-6200 rpm   SMC", "é", "?")
    );
    assert!(driven_by_software(&text(" 1\n")));
    assert!(!driven_by_software(&text("11")));
    assert!(driven_by_software(&Ok(fan("x").set_software_control(true).text)));
    assert!(!driven_by_software(&Ok(fan("x").set_software_control(false).text)));
}

#[test]
fn commands_and_starts_are_reported() {
    let command = Command { rpm: 3200, reason: Reason::Steering("TPCD".to_string()) };
    assert_eq!(
        command_line(&command, "TPCD=91C"),
        "3200 rpm — steering on TPCD [TPCD=91C]"
    );
    assert_eq!(
        announcement(&vec![fan("Left"), fan("Right")], 4, 2000, 6200, 1000),
        "steering Left, Right on 4 sensors, 2000-6200 rpm, every 1000ms"
    );
    assert_eq!(
        announcement(&vec![fan("Exhaust")], 1, 2000, 6200, 250),
        "steering Exhaust on 1 sensor, 2000-6200 rpm, every 250ms"
    );
}

#[test]
fn text_is_handled_as_by_the_standard_library() {
    for s in ["", " ", "a", " a b\t\n", "\u{2003}x\u{85}", "\u{200b}x", "é ", "\u{1680}\u{feff}"] {
        assert_eq!(trim(s), s.trim(), "{s:?}");
        assert_eq!(fill_right(s, 4), format!("{s:<4}"));
        assert_eq!(fill_left(s, 4), format!("{s:>4}"));
        for t in ["", "a", "b", "aa", "é", "\u{10000}", "\u{e000}", "Z"] {
            assert_eq!(precedes(s, t), s < t, "{s:?} {t:?}");
            assert_eq!(precedes(t, s), t < s, "{t:?} {s:?}");
        }
    }
    assert!(precedes("\u{e000}", "\u{10000}"));
    for n in [0, 7, 10, 99, 100, 6200, u32::MAX as u64, u64::MAX] {
        assert_eq!(decimal_text(n), n.to_string());
    }
    let list = vec!["a".to_string(), String::new(), "c".to_string()];
    assert_eq!(join(&list, ", "), list.join(", "));
    // Every white space character, and no other.
    for c in (0..=0x10ffff).filter_map(char::from_u32) {
        let s = c.to_string();
        assert_eq!(trim(&s).is_empty(), s.trim().is_empty(), "{:x}", c as u32);
    }
}
